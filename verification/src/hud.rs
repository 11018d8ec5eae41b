//! Running gameplay values at a song time: hits, misses, combo, score, accuracy,
//! health and the combo ring, all derived from the per-note resolution.

use vstd::prelude::*;
use vstd::slice::slice_subrange;

use crate::count::tally;
use crate::fixed::{
    between, div_nearest, greater, interpolate, law_lines_join_their_ends, law_rounding_is_closest,
    law_rounding_is_monotone, law_rounding_keeps_whole_numbers,
    lesser, magnitude, nearest, within, COORDINATE_LIMIT, ONE,
};
use crate::hitreg::{
    attribution, chart_time, first_not_before, flagged, frames_in_time, is_outcome, law_flags_are_shared_out,
    match_hits, result_of, MatchOutcome, NoteResult, DEFAULT_WINDOW_MS,
};
use crate::replay::{frames_in_range, notes_in_range, Beatmap, Frame, Note, Replay};

verus! {

/// The most notes whose score fits whatever the outcome: a clean run over one more of them has a
/// score beyond the largest number.
pub const NOTE_LIMIT: usize = 429_496_729;

/// Lifetime of the mark on a missed note's cell, in millionths of a millisecond.
pub const MISS_X_MS: i64 = 500_000_000;

/// Streak hits per side of the combo ring.
pub const RING_TIER: u32 = 8;

/// Accuracy letter grade.
#[derive(Clone, Copy, Debug, PartialEq, Eq, Structural)]
pub enum Grade {
    SS,
    S,
    A,
    B,
    C,
    D,
}

/// The grade of an accuracy in millionths of a percent: SS at 100, S from 99, A
/// from 95, B from 90, C from 85, D below.
pub open spec fn grade_of(acc: int) -> Grade {
    if acc >= 100 * ONE {
        Grade::SS
    } else if acc >= 99 * ONE {
        Grade::S
    } else if acc >= 95 * ONE {
        Grade::A
    } else if acc >= 90 * ONE {
        Grade::B
    } else if acc >= 85 * ONE {
        Grade::C
    } else {
        Grade::D
    }
}

impl Grade {
    /// Grade from an accuracy in millionths of a percent.
    pub fn from_accuracy(acc: i64) -> (g: Grade)
        ensures
            g == grade_of(acc as int),
    {
        if acc >= 100_000_000 {
            Grade::SS
        } else if acc >= 99_000_000 {
            Grade::S
        } else if acc >= 95_000_000 {
            Grade::A
        } else if acc >= 90_000_000 {
            Grade::B
        } else if acc >= 85_000_000 {
            Grade::C
        } else {
            Grade::D
        }
    }

    /// The letters of the grade.
    pub open spec fn letters(self) -> Seq<char> {
        match self {
            Grade::SS => "SS"@,
            Grade::S => "S"@,
            Grade::A => "A"@,
            Grade::B => "B"@,
            Grade::C => "C"@,
            Grade::D => "D"@,
        }
    }

    /// The letters of the grade.
    pub fn label(self) -> (s: &'static str)
        ensures
            s@ == self.letters(),
    {
        match self {
            Grade::SS => "SS",
            Grade::S => "S",
            Grade::A => "A",
            Grade::B => "B",
            Grade::C => "C",
            Grade::D => "D",
        }
    }

    /// The sRGB colour of the grade.
    pub open spec fn paint(self) -> Seq<u8> {
        match self {
            Grade::SS => seq![144u8, 80u8, 224u8],
            Grade::S => seq![144u8, 136u8, 248u8],
            Grade::A => seq![144u8, 248u8, 144u8],
            Grade::B => seq![224u8, 248u8, 184u8],
            Grade::C => seq![248u8, 240u8, 176u8],
            Grade::D => seq![248u8, 208u8, 176u8],
        }
    }

    /// The sRGB colour of the grade.
    pub fn color(self) -> (c: [u8; 3])
        ensures
            c@ == self.paint(),
    {
        let c: [u8; 3] = match self {
            Grade::SS => [144, 80, 224],
            Grade::S => [144, 136, 248],
            Grade::A => [144, 248, 144],
            Grade::B => [224, 248, 184],
            Grade::C => [248, 240, 176],
            Grade::D => [248, 208, 176],
        };
        assert(c@ =~= self.paint());
        c
    }
}

/// The combo ring's shape. The side count is no pure function of the combo: a full
/// ring of eight streak hits adds a side, and each miss removes one while the combo
/// itself resets. Nothing shrinks with time.
#[derive(Clone, Copy, Debug, PartialEq, Eq, Structural)]
pub struct RingState {
    /// The side count that the shape sits on after misses.
    pub floor: u32,
    /// Current hit streak.
    pub streak: u32,
}

/// The side count of a streak above a floor: a triangle gains a side per tier, up to
/// the octagon.
pub open spec fn ring_sides(floor: int, streak: int) -> int {
    lesser(greater(3 + streak / (RING_TIER as int), floor), 8)
}

/// How much of the outline is filled, in eighths. Only a streak of forty fills it.
pub open spec fn ring_fill(streak: int) -> int {
    if streak >= 5 * RING_TIER {
        8
    } else {
        streak % (RING_TIER as int)
    }
}

/// The floor after a miss: one side less, and never below the triangle.
pub open spec fn floor_after_miss(floor: int, streak: int) -> int {
    greater(ring_sides(floor, streak) - 1, 3)
}

impl RingState {
    /// Whether the floor is a shape.
    pub open spec fn wf(self) -> bool {
        3 <= self.floor <= 8
    }

    /// A triangle without a streak.
    pub fn new() -> (r: RingState)
        ensures
            r == (RingState { floor: 3, streak: 0 }),
            r.wf(),
    {
        RingState { floor: 3, streak: 0 }
    }

    /// Registers a hit.
    pub fn on_hit(&mut self, _now_ms: i64)
        requires
            old(self).streak < u32::MAX,
        ensures
            *final(self) == (RingState { streak: (old(self).streak + 1) as u32, ..*old(self) }),
    {
        self.streak = self.streak + 1;
    }

    /// Registers a miss. Returns the fill before it, in eighths, from which the drain
    /// starts.
    pub fn on_miss(&mut self, now_ms: i64) -> (fill: u32)
        ensures
            fill == ring_fill(old(self).streak as int),
            *final(self) == (RingState {
                floor: floor_after_miss(old(self).floor as int, old(self).streak as int) as u32,
                streak: 0,
            }),
            final(self).wf(),
    {
        let fill: u32 = self.progress();
        let sides: u32 = self.sides_at(now_ms);
        self.floor = if sides < 4 {
            3
        } else {
            sides - 1
        };
        self.streak = 0;
        fill
    }

    /// The side count that is shown.
    pub fn sides_at(&self, _now_ms: i64) -> (sides: u32)
        ensures
            sides == ring_sides(self.floor as int, self.streak as int),
            3 <= sides <= 8,
    {
        let grown: u32 = 3 + self.streak / RING_TIER;
        let held: u32 = if grown > self.floor {
            grown
        } else {
            self.floor
        };
        if held < 8 {
            held
        } else {
            8
        }
    }

    /// How much of the outline is filled, in eighths.
    pub fn progress(&self) -> (fill: u32)
        ensures
            fill == ring_fill(self.streak as int),
            fill <= 8,
    {
        if self.streak >= 5 * RING_TIER {
            8
        } else {
            self.streak % RING_TIER
        }
    }
}

/// What a note hit at a combo is worth, in hundreds of points: the combo itself.
pub fn note_multiplier(combo: u32) -> (w: u64)
    ensures
        w == combo,
{
    combo as u64
}

/// The running values after some notes.
pub struct Run {
    pub hits: int,
    pub misses: int,
    pub combo: int,
    /// Combos of all hits added up.
    pub weight: int,
    pub last_hit: Option<int>,
    pub last_miss: Option<int>,
    pub floor: int,
    pub fill_at_miss: int,
}

/// When a hit note was hit.
pub open spec fn hit_time(r: NoteResult, note: Note) -> int {
    match r.hit_ms {
        Some(ms) => ms as int,
        None => chart_time(note),
    }
}

/// When a missed note counts as missed.
pub open spec fn miss_time(note: Note) -> int {
    chart_time(note) + DEFAULT_WINDOW_MS
}

/// What one more note adds at a song time: a hit that has landed, a miss whose window
/// is over, or nothing yet.
pub open spec fn after_note(run: Run, r: NoteResult, note: Note, t: int) -> Run {
    if r.hit && hit_time(r, note) <= t {
        Run {
            hits: run.hits + 1,
            combo: run.combo + 1,
            weight: run.weight + run.combo + 1,
            last_hit: Some(hit_time(r, note)),
            ..run
        }
    } else if !r.hit && miss_time(note) < t {
        Run {
            misses: run.misses + 1,
            combo: 0,
            last_miss: Some(miss_time(note)),
            floor: floor_after_miss(run.floor, run.combo),
            fill_at_miss: ring_fill(run.combo),
            ..run
        }
    } else {
        run
    }
}

/// The running values after the first `n` results at a song time.
pub open spec fn run_after(results: Seq<NoteResult>, notes: Seq<Note>, t: int, n: nat) -> Run
    decreases n,
{
    if n == 0 {
        Run {
            hits: 0,
            misses: 0,
            combo: 0,
            weight: 0,
            last_hit: None,
            last_miss: None,
            floor: 3,
            fill_at_miss: 0,
        }
    } else {
        let r = results[n - 1];
        after_note(
            run_after(results, notes, t, (n - 1) as nat),
            r,
            notes[r.note_index as int],
            t,
        )
    }
}

/// Hits over resolved notes in millionths of a percent; 100 before the first note.
pub open spec fn live_accuracy(hits: int, misses: int) -> int {
    if hits + misses == 0 {
        100 * ONE as int
    } else {
        nearest(100 * ONE * hits, hits + misses)
    }
}

/// How far an accuracy lies above ninety percent.
pub open spec fn above_ninety(acc: int) -> int {
    greater(acc - 90 * ONE, 0)
}

/// Live points at the current accuracy: the final points scaled by a cubic above
/// ninety percent, up to the largest number of points. A run without a final accuracy to scale by
/// shows its final points.
pub open spec fn points_at(final_rp: int, acc_now: int, acc_final: int) -> int {
    let now = above_ninety(acc_now);
    let end = above_ninety(acc_final);
    if end <= 100_000 || final_rp <= 0 {
        greater(final_rp, 0)
    } else {
        lesser(nearest(final_rp * (now * now * now), end * end * end), i64::MAX as int)
    }
}

/// Health at a song time: that of the first frame at the time, the nearest end outside
/// the recording, and in between the straight line. Full without frames.
pub open spec fn health_curve(frames: Seq<Frame>, t: int) -> int {
    let i = first_not_before(frames, 0, t);
    if frames.len() == 0 {
        ONE as int
    } else if i == frames.len() {
        frames.last().health as int
    } else if i == 0 || frames[i].ms == t {
        frames[i].health as int
    } else {
        let a = frames[i - 1];
        let b = frames[i];
        between(a.health as int, b.health as int, t - a.ms, b.ms - a.ms)
    }
}

/// Health at a song time, in millionths.
pub fn health_at(frames: &[Frame], t: i64) -> (h: i64)
    requires
        frames_in_range(frames@),
    ensures
        h == health_curve(frames@, t as int),
{
    if frames.len() == 0 {
        return ONE;
    }
    let mut i: usize = 0;
    while i < frames.len() && frames[i].ms < t
        invariant
            i <= frames@.len(),
            first_not_before(frames@, 0, t as int) == first_not_before(frames@, i as int, t as int),
            i > 0 ==> frames@[i - 1].ms < t,
        decreases frames@.len() - i,
    {
        i = i + 1;
    }
    if i == frames.len() {
        return frames[i - 1].health;
    }
    if i == 0 || frames[i].ms == t {
        return frames[i].health;
    }
    let a: Frame = frames[i - 1];
    let b: Frame = frames[i];
    interpolate(
        a.health,
        b.health,
        t as i128 - a.ms as i128,
        b.ms as i128 - a.ms as i128,
    ) as i64
}

proof fn lemma_cube(x: int, limit: int)
    requires
        0 <= x <= limit,
    ensures
        0 <= x * x <= limit * limit,
        0 <= x * x * x <= limit * limit * limit,
{
    assert(0 <= x * x <= limit * limit) by (nonlinear_arith)
        requires
            0 <= x <= limit,
    ;
    assert(0 <= x * x * x <= limit * limit * limit) by (nonlinear_arith)
        requires
            0 <= x <= limit,
            0 <= x * x <= limit * limit,
    ;
}

proof fn lemma_cube_positive(x: int)
    requires
        x > 0,
    ensures
        x * x * x > 0,
{
    assert(x * x > 0) by (nonlinear_arith)
        requires
            x > 0,
    ;
    assert(x * x * x > 0) by (nonlinear_arith)
        requires
            x > 0,
            x * x > 0,
    ;
}

/// A product divided by a number, rounded down, and what is left over. The product itself need
/// not fit.
fn product_over(a: u64, c: u128, d: u128) -> (r: (u128, u128))
    requires
        a <= i64::MAX,
        c <= 2_000_000_000_000_000_000_000,
        100_000 <= d <= i64::MAX,
    ensures
        r.0 * d + r.1 == a * c,
        r.1 < d,
        r.0 <= 185_000_000_000_000_000_000_000_000_000_000_000,
    decreases a,
{
    if a == 0 {
        assert(0 * d == 0 && 0 * c == 0) by (nonlinear_arith);
        return (0, 0);
    }
    let (q, r) = product_over(a / 2, c, d);
    let odd: u128 = if a % 2 == 1 {
        c
    } else {
        0
    };
    let rest: u128 = 2 * r + odd;
    let more: u128 = rest / d;
    let left: u128 = rest % d;
    let whole: u128 = 2 * q + more;
    proof {
        let h = (a / 2) as int;
        let o = (a % 2) as int;
        assert(a * c == 2 * (h * c) + o * c) by (nonlinear_arith)
            requires
                a == 2 * h + o,
        ;
        assert(o * c == odd) by (nonlinear_arith)
            requires
                o == 0 && odd == 0 || o == 1 && odd == c,
        ;
        assert(rest == more * d + left && left < d) by (nonlinear_arith)
            requires
                d > 0,
                more == rest / d,
                left == rest % d,
        ;
        assert(whole * d == 2 * (q * d) + more * d) by (nonlinear_arith)
            requires
                whole == 2 * q + more,
        ;
        assert(a * c <= 18_500_000_000_000_000_000_000_000_000_000_000_000_000) by (nonlinear_arith)
            requires
                0 <= a <= 0x7fff_ffff_ffff_ffff,
                0 <= c <= 2_000_000_000_000_000_000_000,
        ;
        assert(whole <= 185_000_000_000_000_000_000_000_000_000_000_000) by (nonlinear_arith)
            requires
                whole * d <= 18_500_000_000_000_000_000_000_000_000_000_000_000_000,
                d >= 100_000,
        ;
    }
    (whole, left)
}

/// A fraction over a cube is rounded by dividing twice.
proof fn lemma_nearest_cube(n: int, e: int, q: int, r: int)
    requires
        n >= 0,
        e > 0,
        q * e + r == 2 * n,
        0 <= r < e,
    ensures
        nearest(n, e * e * e) == (q / (e * e) + 1) / 2,
{
    let s = e * e;
    let d = e * e * e;
    assert(s > 0 && d > 0 && e * s == d) by (nonlinear_arith)
        requires
            e > 0,
            s == e * e,
            d == e * e * e,
    ;
    vstd::arithmetic::div_mod::lemma_fundamental_div_mod_converse(2 * n, e, q, r);
    vstd::arithmetic::div_mod::lemma_div_denominator(2 * n, e, s);
    assert((2 * n) / d == q / s);
    vstd::arithmetic::div_mod::lemma_div_plus_one(2 * n, d);
    vstd::arithmetic::div_mod::lemma_div_denominator(2 * n + d, d, 2);
    assert(d * 2 == 2 * d);
}

/// Live points at the current accuracy, all in millionths.
pub fn live_rp(final_rp: i64, acc_now_pct: i64, acc_final_pct: i64) -> (rp: i64)
    requires
        acc_now_pct <= 100_000_000,
    ensures
        rp == points_at(final_rp as int, acc_now_pct as int, acc_final_pct as int),
{
    if final_rp <= 0 {
        return 0;
    }
    let end: i128 = if acc_final_pct > 90_000_000 {
        acc_final_pct as i128 - 90_000_000
    } else {
        0
    };
    if end <= 100_000 {
        return final_rp;
    }
    let now: i128 = if acc_now_pct > 90_000_000 {
        acc_now_pct as i128 - 90_000_000
    } else {
        0
    };
    proof {
        lemma_cube(now as int, 10_000_000);
        assert(0 <= end * end <= 0x7fff_ffff_ffff_ffff * 0x7fff_ffff_ffff_ffff) by (nonlinear_arith)
            requires
                0 <= end <= 0x7fff_ffff_ffff_ffff,
        ;
        assert(end * end > 0) by (nonlinear_arith)
            requires
                end > 0,
        ;
    }
    let cube: i128 = now * now * now;
    let (q, r) = product_over(final_rp as u64, 2 * cube as u128, end as u128);
    let square: u128 = end as u128 * end as u128;
    let rounded: u128 = (q / square + 1) / 2;
    proof {
        assert(final_rp * (2 * cube) == 2 * (final_rp * cube)) by (nonlinear_arith);
        assert(final_rp * cube >= 0) by (nonlinear_arith)
            requires
                final_rp > 0,
                cube >= 0,
        ;
        lemma_nearest_cube(final_rp * cube, end as int, q as int, r as int);
    }
    if rounded > i64::MAX as u128 {
        i64::MAX
    } else {
        rounded as i64
    }
}

/// Running gameplay values at a song time.
#[derive(Clone, Copy, Debug)]
pub struct HudStats {
    /// A hundred points per combo step.
    pub score: i64,
    /// Live points, in millionths.
    pub points: i64,
    /// Current hit streak.
    pub combo: u32,
    /// Notes missed so far.
    pub misses: u32,
    /// Notes hit so far.
    pub hits: u32,
    /// Notes hit or missed so far.
    pub resolved: u32,
    /// Hits over resolved notes, in millionths of a percent.
    pub accuracy_pct: i64,
    /// Health, in millionths.
    pub health: i64,
    /// Grade of the accuracy.
    pub grade: Grade,
    /// Time since the last hit, in millionths of a millisecond; none before the first.
    pub ms_since_hit: Option<u128>,
    /// Time since the last miss, in millionths of a millisecond; none before the first.
    pub ms_since_miss: Option<u128>,
    /// Side count of the combo ring.
    pub ring_sides: u32,
    /// Fill of the combo ring, in eighths.
    pub ring_progress: u32,
    /// Fill that the ring had at the last miss, in eighths.
    pub ring_fill_at_miss: u32,
}

/// Time that has passed since a moment; none where there was none.
pub open spec fn elapsed(t: int, since: Option<int>) -> Option<int> {
    match since {
        Some(s) => Some(greater(t - s, 0)),
        None => None,
    }
}

/// Whether an optional number is the given one.
pub open spec fn same_number(a: Option<u128>, b: Option<int>) -> bool {
    match (a, b) {
        (Some(x), Some(y)) => x == y,
        (None, None) => true,
        _ => false,
    }
}

/// Whether `stats` are the values of a run at a song time.
pub open spec fn are_stats(
    stats: HudStats,
    results: Seq<NoteResult>,
    notes: Seq<Note>,
    replay: Replay,
    t: int,
) -> bool {
    let run = run_after(results, notes, t, results.len());
    &&& stats.score == 100 * run.weight
    &&& stats.hits == run.hits
    &&& stats.misses == run.misses
    &&& stats.resolved == run.hits + run.misses
    &&& stats.combo == run.combo
    &&& stats.accuracy_pct == live_accuracy(run.hits, run.misses)
    &&& stats.grade == grade_of(stats.accuracy_pct as int)
    &&& stats.points == points_at(
        replay.points as int,
        stats.accuracy_pct as int,
        replay.accuracy_pct as int,
    )
    &&& stats.health == health_curve(replay.frames@, t)
    &&& same_number(stats.ms_since_hit, elapsed(t, run.last_hit))
    &&& same_number(stats.ms_since_miss, elapsed(t, run.last_miss))
    &&& stats.ring_sides == ring_sides(run.floor, run.combo)
    &&& stats.ring_progress == ring_fill(run.combo)
    &&& stats.ring_fill_at_miss == run.fill_at_miss
}

/// What holds of the running values after `n` notes.
proof fn lemma_run(results: Seq<NoteResult>, notes: Seq<Note>, t: int, n: nat)
    requires
        n <= results.len(),
    ensures
        ({
            let run = run_after(results, notes, t, n);
            &&& 0 <= run.hits
            &&& 0 <= run.misses
            &&& run.hits + run.misses <= n
            &&& 0 <= run.combo <= run.hits
            &&& 0 <= run.weight
            &&& 2 * run.weight <= run.hits * (run.hits + 1)
            &&& 3 <= run.floor <= 8
            &&& 0 <= run.fill_at_miss <= 8
            &&& run.last_hit is Some ==> run.last_hit->0 <= t
            &&& run.last_miss is Some ==> run.last_miss->0 <= t
        }),
    decreases n,
{
    if n > 0 {
        lemma_run(results, notes, t, (n - 1) as nat);
        let run = run_after(results, notes, t, (n - 1) as nat);
        assert((run.hits + 1) * (run.hits + 2) == run.hits * (run.hits + 1) + 2 * (run.hits + 1))
            by (nonlinear_arith);
    }
}

/// Hits and misses are counted from nothing.
pub proof fn lemma_run_counts(results: Seq<NoteResult>, notes: Seq<Note>, t: int, n: nat)
    requires
        n <= results.len(),
    ensures
        run_after(results, notes, t, n).hits >= 0,
        run_after(results, notes, t, n).misses >= 0,
{
    lemma_run(results, notes, t, n);
}

/// A run of nothing but hits scores a hundred points for every combo step: after `k`
/// hits 100 times 1 + 2 + ... + k.
pub proof fn law_clean_run_score(results: Seq<NoteResult>, notes: Seq<Note>, t: int, n: nat)
    requires
        n <= results.len(),
        forall|i: int|
            0 <= i < n ==> (#[trigger] results[i]).hit && hit_time(
                results[i],
                notes[results[i].note_index as int],
            ) <= t,
    ensures
        ({
            let run = run_after(results, notes, t, n);
            &&& run.hits == n
            &&& run.misses == 0
            &&& run.combo == n
            &&& 2 * run.weight == n * (n + 1)
        }),
    decreases n,
{
    if n > 0 {
        law_clean_run_score(results, notes, t, (n - 1) as nat);
        assert(results[n - 1].hit);
        assert(n * (n + 1) == (n - 1) * n + 2 * n) by (nonlinear_arith);
    }
}

/// The score of a run on a map within the note limit is in range, and never negative.
pub proof fn law_score_is_bounded(results: Seq<NoteResult>, notes: Seq<Note>, t: int, n: nat)
    requires
        n <= results.len(),
        n <= NOTE_LIMIT,
    ensures
        0 <= 100 * run_after(results, notes, t, n).weight <= i64::MAX,
{
    let run = run_after(results, notes, t, n);
    lemma_run(results, notes, t, n);
    lemma_weight_bound(run.hits, run.weight, n as int);
}

/// A miss takes exactly one side off the ring and never goes below the triangle; a hit
/// never takes one off.
pub proof fn law_ring_moves(floor: int, streak: int)
    requires
        3 <= floor <= 8,
        streak >= 0,
    ensures
        ring_sides(floor_after_miss(floor, streak), 0) == greater(ring_sides(floor, streak) - 1, 3),
        ring_sides(floor, streak) <= ring_sides(floor, streak + 1) <= ring_sides(floor, streak) + 1,
        3 <= ring_sides(floor, streak) <= 8,
{
}

/// Values never run ahead: at an earlier time no more notes are resolved.
pub proof fn law_resolved_grows(
    results: Seq<NoteResult>,
    notes: Seq<Note>,
    earlier: int,
    later: int,
    n: nat,
)
    requires
        earlier <= later,
        n <= results.len(),
    ensures
        run_after(results, notes, earlier, n).hits <= run_after(results, notes, later, n).hits,
        run_after(results, notes, earlier, n).misses <= run_after(results, notes, later, n).misses,
    decreases n,
{
    if n > 0 {
        law_resolved_grows(results, notes, earlier, later, (n - 1) as nat);
    }
}

proof fn lemma_run_rests(
    results: Seq<NoteResult>,
    notes: Seq<Note>,
    earlier: int,
    later: int,
    n: nat,
)
    requires
        earlier <= later,
        n <= results.len(),
        forall|i: int|
            0 <= i < n ==> {
                let note = notes[(#[trigger] results[i]).note_index as int];
                &&& results[i].hit ==> hit_time(results[i], note) <= earlier
                &&& !results[i].hit ==> miss_time(note) < earlier
            },
    ensures
        run_after(results, notes, earlier, n) == run_after(results, notes, later, n),
    decreases n,
{
    if n > 0 {
        lemma_run_rests(results, notes, earlier, later, (n - 1) as nat);
        assert(results[n - 1].hit || !results[n - 1].hit);
    }
}

/// Nothing moves any more once the window of every note is over.
pub proof fn law_values_rest_past_the_last_note(
    outcome: MatchOutcome,
    notes: Seq<Note>,
    frames: Seq<Frame>,
    earlier: int,
    later: int,
)
    requires
        notes.len() <= usize::MAX,
        is_outcome(outcome, notes, frames, DEFAULT_WINDOW_MS as int, true),
        forall|i: int| 0 <= i < notes.len() ==> miss_time(#[trigger] notes[i]) < earlier,
        earlier <= later,
    ensures
        run_after(outcome.results@, notes, earlier, notes.len()) == run_after(
            outcome.results@,
            notes,
            later,
            notes.len(),
        ),
{
    let window = DEFAULT_WINDOW_MS as int;
    let owned = attribution(notes, frames, window, true);
    law_flags_are_shared_out(notes, frames, window, true);
    let results = outcome.results@;
    assert forall|i: int| 0 <= i < notes.len() implies {
        let note = notes[(#[trigger] results[i]).note_index as int];
        &&& results[i].hit ==> hit_time(results[i], note) <= earlier
        &&& !results[i].hit ==> miss_time(note) < earlier
    } by {
        assert(results[i].note_index == i);
        assert(miss_time(notes[i]) < earlier);
        assert(results[i].hit == owned[i] is Some);
    }
    lemma_run_rests(results, notes, earlier, later, notes.len());
}

/// Every run ends on its own points: at the final accuracy, live points are the final ones.
pub proof fn law_runs_end_on_their_points(rp: int, acc: int)
    requires
        0 <= rp <= i64::MAX,
    ensures
        points_at(rp, acc, acc) == rp,
{
    let end = above_ninety(acc);
    if end > 100_000 {
        lemma_cube_positive(end);
        let d = end * end * end;
        assert((2 * (rp * d) + d) / (2 * d) == rp && rp * d >= 0) by (nonlinear_arith)
            requires
                d > 0,
                rp >= 0,
        {
            assert(2 * (rp * d) + d == (2 * d) * rp + d) by (nonlinear_arith);
            vstd::arithmetic::div_mod::lemma_fundamental_div_mod_converse(
                2 * (rp * d) + d,
                2 * d,
                rp,
                d,
            );
        }
    }
}

/// One registered hit: when, how early or late, and where the cursor sat relative to the
/// note's centre.
#[derive(Debug, Clone, Copy, PartialEq, Eq, Structural)]
pub struct HitDetail {
    /// Song time of the hit, in millionths of a millisecond.
    pub hit_ms: i64,
    /// Positive where late, negative where early, in millionths of a millisecond.
    pub err_ms: i64,
    /// Offset from the note's centre, in millionths of a world unit.
    pub off_x: i64,
    /// Offset from the note's centre, in millionths of a world unit.
    pub off_y: i64,
}

/// The last frame that is reached from `from` by steps to frames not later than `t`.
pub open spec fn reached(frames: Seq<Frame>, from: int, t: int) -> int
    decreases frames.len() - from,
{
    if from < 0 || from + 1 >= frames.len() || frames[from + 1].ms > t {
        from
    } else {
        reached(frames, from + 1, t)
    }
}

/// The cursor at a hit: on the straight line to the next frame, or that of the frame
/// itself where the next is not later.
pub open spec fn cursor_at_hit(frames: Seq<Frame>, t: int) -> (int, int) {
    let i = reached(frames, 0, t);
    if frames.len() == 0 {
        (0, 0)
    } else if i + 1 < frames.len() && frames[i + 1].ms > frames[i].ms {
        let a = frames[i];
        let b = frames[i + 1];
        let whole = b.ms - a.ms;
        let part = within(t - a.ms, 0, whole);
        (
            between(a.x as int, b.x as int, part, whole),
            between(a.y as int, b.y as int, part, whole),
        )
    } else {
        (frames[i].x as int, frames[i].y as int)
    }
}

/// The detail of a note hit at a time.
pub open spec fn detail_of(frames: Seq<Frame>, note: Note, t: i64) -> HitDetail {
    let (cx, cy) = cursor_at_hit(frames, t as int);
    HitDetail {
        hit_ms: t,
        err_ms: (t - chart_time(note)) as i64,
        off_x: (cx - (note.x - ONE)) as i64,
        off_y: (cy - (ONE - note.y)) as i64,
    }
}

/// A list of notes by hit time with one more note, behind all that were not hit later.
pub open spec fn with_note(order: Seq<int>, results: Seq<NoteResult>, i: int) -> Seq<int>
    decreases order.len(),
{
    if order.len() > 0 && results[order.last()].hit_ms->0 > results[i].hit_ms->0 {
        with_note(order.drop_last(), results, i).push(order.last())
    } else {
        order.push(i)
    }
}

/// The notes hit among the first `n`, by hit time, and in note order where two were hit at
/// the same time.
pub open spec fn by_hit_time(results: Seq<NoteResult>, n: nat) -> Seq<int>
    decreases n,
{
    if n == 0 {
        Seq::empty()
    } else if results[n - 1].hit {
        with_note(by_hit_time(results, (n - 1) as nat), results, n - 1)
    } else {
        by_hit_time(results, (n - 1) as nat)
    }
}

/// The details of all hits, by hit time.
pub open spec fn details_of(
    results: Seq<NoteResult>,
    notes: Seq<Note>,
    frames: Seq<Frame>,
) -> Seq<HitDetail> {
    let order = by_hit_time(results, results.len());
    Seq::new(
        order.len(),
        |k: int| detail_of(frames, notes[order[k]], results[order[k]].hit_ms->0),
    )
}

/// The hit resolution of a replay, worked out once and read for every frame.
pub struct HudState {
    /// Which notes were hit.
    pub outcome: MatchOutcome,
    /// Details of the hits, by hit time.
    pub hit_details: Vec<HitDetail>,
}

/// Whether hits are in the order of their times.
pub open spec fn in_time_order(details: Seq<HitDetail>) -> bool {
    forall|i: int, j: int|
        0 <= i <= j < details.len() ==> (#[trigger] details[i]).hit_ms <= (
        #[trigger] details[j]).hit_ms
}

impl HudState {
    /// Whether the details are in the order of their times.
    pub open spec fn wf(&self) -> bool {
        in_time_order(self.hit_details@)
    }

    /// Whether every result belongs to one of `notes`.
    pub open spec fn fits(&self, notes: Seq<Note>) -> bool {
        forall|i: int|
            0 <= i < self.outcome.results@.len() ==> (
            #[trigger] self.outcome.results@[i]).note_index < notes.len()
    }
}

/// Whether a list holds hit notes of the first `n` in the order of their times.
spec fn ordered(order: Seq<int>, results: Seq<NoteResult>, n: int) -> bool {
    &&& forall|k: int| 0 <= k < order.len() ==> 0 <= #[trigger] order[k] < n && results[order[k]].hit
    &&& forall|j: int, k: int|
        0 <= j <= k < order.len() ==> results[#[trigger] order[j]].hit_ms->0
            <= results[#[trigger] order[k]].hit_ms->0
}

proof fn lemma_with_note(order: Seq<int>, results: Seq<NoteResult>, i: int)
    requires
        ordered(order, results, i),
        0 <= i < results.len(),
        results[i].hit,
    ensures
        ordered(with_note(order, results, i), results, i + 1),
        with_note(order, results, i).len() == order.len() + 1,
        forall|k: int|
            0 <= k <= order.len() ==> results[#[trigger] with_note(order, results, i)[k]].hit_ms->0
                <= results[i].hit_ms->0 || results[with_note(order, results, i)[k]].hit_ms->0
                <= results[order.last()].hit_ms->0,
    decreases order.len(),
{
    if order.len() > 0 && results[order.last()].hit_ms->0 > results[i].hit_ms->0 {
        let front = order.drop_last();
        assert(ordered(front, results, i)) by {
            assert forall|k: int| 0 <= k < front.len() implies 0 <= #[trigger] front[k] < i
                && results[front[k]].hit by {
                assert(front[k] == order[k]);
            }
            assert forall|j: int, k: int| 0 <= j <= k < front.len() implies results[
                #[trigger] front[j]
            ].hit_ms->0 <= results[#[trigger] front[k]].hit_ms->0 by {
                assert(front[j] == order[j] && front[k] == order[k]);
            }
        }
        lemma_with_note(front, results, i);
        let w = with_note(front, results, i);
        let all = with_note(order, results, i);
        assert forall|k: int| 0 <= k < w.len() implies results[#[trigger] w[k]].hit_ms->0
            <= results[order.last()].hit_ms->0 by {
            if front.len() > 0 {
                assert(front.last() == order[front.len() - 1]);
                assert(results[order[front.len() - 1]].hit_ms->0 <= results[
                    order[order.len() - 1]
                ].hit_ms->0);
            } else {
                assert(w =~= seq![i]);
            }
        }
        assert forall|k: int| 0 <= k < all.len() implies 0 <= #[trigger] all[k] < i + 1
            && results[all[k]].hit by {
            if k < w.len() {
                assert(all[k] == w[k]);
            } else {
                assert(all[k] == order[order.len() - 1]);
            }
        }
        assert forall|j: int, k: int| 0 <= j <= k < all.len() implies results[
            #[trigger] all[j]
        ].hit_ms->0 <= results[#[trigger] all[k]].hit_ms->0 by {
            if k < w.len() {
                assert(all[j] == w[j] && all[k] == w[k]);
            } else if j < w.len() {
                assert(all[j] == w[j] && all[k] == order.last());
            }
        }
        assert forall|k: int| 0 <= k <= order.len() implies results[#[trigger] all[k]].hit_ms->0
            <= results[i].hit_ms->0 || results[all[k]].hit_ms->0 <= results[
            order.last()
        ].hit_ms->0 by {
            if k < w.len() {
                assert(all[k] == w[k]);
            }
        }
    } else {
        let all = order.push(i);
        assert forall|k: int| 0 <= k < all.len() implies 0 <= #[trigger] all[k] < i + 1
            && results[all[k]].hit by {
            if k < order.len() {
                assert(all[k] == order[k]);
            }
        }
        assert forall|j: int, k: int| 0 <= j <= k < all.len() implies results[
            #[trigger] all[j]
        ].hit_ms->0 <= results[#[trigger] all[k]].hit_ms->0 by {
            if k < order.len() {
                assert(all[j] == order[j] && all[k] == order[k]);
            } else if j < order.len() {
                assert(all[j] == order[j]);
                assert(results[order[j]].hit_ms->0 <= results[order[order.len() - 1]].hit_ms->0);
            }
        }
        assert forall|k: int| 0 <= k <= order.len() implies results[#[trigger] all[k]].hit_ms->0
            <= results[i].hit_ms->0 || results[all[k]].hit_ms->0 <= results[
            order.last()
        ].hit_ms->0 by {
            if k < order.len() {
                assert(all[k] == order[k]);
                assert(results[order[k]].hit_ms->0 <= results[order[order.len() - 1]].hit_ms->0);
            }
        }
    }
}

proof fn lemma_by_hit_time(results: Seq<NoteResult>, n: nat)
    requires
        n <= results.len(),
    ensures
        ordered(by_hit_time(results, n), results, n as int),
        by_hit_time(results, n).len() <= n,
    decreases n,
{
    if n > 0 {
        lemma_by_hit_time(results, (n - 1) as nat);
        if results[n - 1].hit {
            lemma_with_note(by_hit_time(results, (n - 1) as nat), results, n - 1);
        }
    }
}

/// The indices of a list as mathematical integers.
spec fn as_ints(v: Seq<usize>) -> Seq<int> {
    Seq::new(v.len(), |i: int| v[i] as int)
}

/// Sorts the notes that were hit by their hit time.
fn sort_hits(results: &[NoteResult]) -> (order: Vec<usize>)
    requires
        forall|i: int|
            0 <= i < results@.len() && (#[trigger] results@[i]).hit ==> results@[i].hit_ms is Some,
    ensures
        as_ints(order@) == by_hit_time(results@, results@.len()),
{
    let mut order: Vec<usize> = Vec::new();
    let mut i: usize = 0;
    assert(as_ints(order@) =~= by_hit_time(results@, 0));
    while i < results.len()
        invariant
            i <= results@.len(),
            forall|j: int|
                0 <= j < results@.len() && (#[trigger] results@[j]).hit ==> results@[j].hit_ms
                    is Some,
            as_ints(order@) == by_hit_time(results@, i as nat),
        decreases results@.len() - i,
    {
        if results[i].hit {
            proof {
                lemma_by_hit_time(results@, i as nat);
            }
            let ghost before = as_ints(order@);
            let t: i64 = results[i].hit_ms.unwrap();
            let mut p: usize = order.len();
            proof {
                assert(before.take(p as int) =~= before);
                assert(with_note(before, results@, i as int) =~= with_note(
                    before.take(p as int),
                    results@,
                    i as int,
                ) + before.skip(p as int));
            }
            let mut done: bool = false;
            while p > 0 && !done
                invariant
                    p <= order@.len(),
                    before == as_ints(order@),
                    ordered(before, results@, i as int),
                    i < results@.len(),
                    t == results@[i as int].hit_ms->0,
                    forall|j: int|
                        0 <= j < results@.len() && (#[trigger] results@[j]).hit
                            ==> results@[j].hit_ms is Some,
                    with_note(before, results@, i as int) == with_note(
                        before.take(p as int),
                        results@,
                        i as int,
                    ) + before.skip(p as int),
                    done ==> results@[before[p - 1]].hit_ms->0 <= t,
                decreases p, (if done { 0int } else { 1int }),
            {
                let k: usize = order[p - 1];
                assert(before[p - 1] == k);
                if results[k].hit_ms.unwrap() > t {
                    proof {
                        let front = before.take(p as int);
                        assert(front.last() == k);
                        assert(front.drop_last() =~= before.take(p - 1));
                        assert(with_note(before, results@, i as int) =~= with_note(
                            before.take(p - 1),
                            results@,
                            i as int,
                        ) + before.skip(p - 1));
                    }
                    p = p - 1;
                } else {
                    done = true;
                }
            }
            order.insert(p, i);
            proof {
                let front = before.take(p as int);
                if p > 0 {
                    assert(front.last() == before[p - 1]);
                }
                assert(with_note(front, results@, i as int) == front.push(i as int));
                assert(as_ints(order@) =~= with_note(before, results@, i as int));
            }
        }
        i = i + 1;
    }
    order
}

/// The cursor at a hit.
fn hit_cursor(frames: &[Frame], from: usize, t: i64) -> (r: (usize, i128, i128))
    requires
        frames_in_range(frames@),
        from < frames@.len() || from == 0,
        reached(frames@, 0, t as int) == reached(frames@, from as int, t as int),
    ensures
        r.0 == reached(frames@, 0, t as int),
        from <= r.0,
        r.0 < frames@.len() || r.0 == 0,
        r.1 == cursor_at_hit(frames@, t as int).0,
        r.2 == cursor_at_hit(frames@, t as int).1,
        magnitude(r.1 as int) <= 3 * COORDINATE_LIMIT,
        magnitude(r.2 as int) <= 3 * COORDINATE_LIMIT,
{
    let mut i: usize = from;
    while i < frames.len() && frames.len() - i > 1 && frames[i + 1].ms <= t
        invariant
            from <= i,
            i < frames@.len() || i == 0,
            reached(frames@, 0, t as int) == reached(frames@, i as int, t as int),
        decreases frames@.len() - i,
    {
        i = i + 1;
    }
    if frames.len() == 0 {
        return (i, 0, 0);
    }
    if frames.len() - i > 1 && frames[i + 1].ms > frames[i].ms {
        let a: Frame = frames[i];
        let b: Frame = frames[i + 1];
        let whole: i128 = b.ms as i128 - a.ms as i128;
        let gone: i128 = t as i128 - a.ms as i128;
        let part: i128 = if gone < 0 {
            0
        } else if gone > whole {
            whole
        } else {
            gone
        };
        return (i, interpolate(a.x, b.x, part, whole), interpolate(a.y, b.y, part, whole));
    }
    (i, frames[i].x as i128, frames[i].y as i128)
}

/// Steps that an earlier time allows are allowed later too, so the walk can go on from
/// where it stopped.
proof fn lemma_reached_goes_on(frames: Seq<Frame>, from: int, earlier: int, later: int)
    requires
        earlier <= later,
    ensures
        reached(frames, from, later) == reached(
            frames,
            reached(frames, from, earlier),
            later,
        ),
    decreases frames.len() - from,
{
    if !(from < 0 || from + 1 >= frames.len() || frames[from + 1].ms > earlier) {
        lemma_reached_goes_on(frames, from + 1, earlier, later);
    }
}

impl HudState {
    /// Resolves a replay on a map.
    pub fn new(map: &Beatmap, replay: &Replay) -> (state: HudState)
        requires
            replay.frames@.len() <= u32::MAX,
            notes_in_range(map.notes@),
            frames_in_range(replay.frames@),
        ensures
            is_outcome(
                state.outcome,
                map.notes@,
                replay.frames@,
                DEFAULT_WINDOW_MS as int,
                true,
            ),
            state.hit_details@ == details_of(
                state.outcome.results@,
                map.notes@,
                replay.frames@,
            ),
            state.wf(),
            state.fits(map.notes@),
    {
        let notes: &[Note] = map.notes.as_slice();
        let frames: &[Frame] = replay.frames.as_slice();
        let outcome: MatchOutcome = match_hits(notes, frames, DEFAULT_WINDOW_MS);
        let ghost results = outcome.results@;
        let ghost owned = attribution(notes@, frames@, DEFAULT_WINDOW_MS as int, true);
        proof {
            law_flags_are_shared_out(notes@, frames@, DEFAULT_WINDOW_MS as int, true);
        }
        let count: usize = notes.len();
        assert forall|i: int| 0 <= i < results.len() implies (#[trigger] results[i]).note_index == i
            && (results[i].hit ==> results[i].hit_ms is Some && magnitude(
            results[i].hit_ms->0 - chart_time(notes@[i]),
        ) <= DEFAULT_WINDOW_MS) by {
            assert(results[i] == result_of(flagged(frames@), i, owned[i]));
            assert(i < count);
            if owned[i] is Some {
                let late = flagged(frames@)[owned[i]->0].ms - chart_time(notes@[i]);
                assert(late <= DEFAULT_WINDOW_MS);
            }
        }
        let order: Vec<usize> = sort_hits(outcome.results.as_slice());
        let ghost sorted = as_ints(order@);
        proof {
            lemma_by_hit_time(results, results.len());
        }
        let mut hit_details: Vec<HitDetail> = Vec::new();
        let mut k: usize = 0;
        let mut fi: usize = 0;
        let ghost mut last: int = i64::MIN as int;
        while k < order.len()
            invariant
                k <= order@.len(),
                sorted == as_ints(order@),
                sorted == by_hit_time(results, results.len()),
                ordered(sorted, results, results.len() as int),
                results == outcome.results@,
                results.len() == notes@.len(),
                notes_in_range(notes@),
                frames_in_range(frames@),
                forall|i: int|
                    0 <= i < results.len() ==> (#[trigger] results[i]).hit ==> results[i].hit_ms
                        is Some && magnitude(results[i].hit_ms->0 - chart_time(notes@[i]))
                        <= DEFAULT_WINDOW_MS,
                fi < frames@.len() || fi == 0,
                k == 0 ==> fi == 0,
                k > 0 ==> last == results[sorted[k - 1]].hit_ms->0 && fi == reached(
                    frames@,
                    0,
                    last,
                ),
                hit_details@ == details_of(results, notes@, frames@).take(k as int),
            decreases order@.len() - k,
        {
            let i: usize = order[k];
            assert(sorted[k as int] == i);
            let note: Note = notes[i];
            assert(results[i as int].hit);
            let t: i64 = outcome.results[i].hit_ms.unwrap();
            proof {
                if k > 0 {
                    assert(results[sorted[k - 1]].hit_ms->0 <= results[sorted[k as int]].hit_ms->0);
                    lemma_reached_goes_on(frames@, 0, last, t as int);
                }
            }
            let (at, cx, cy) = hit_cursor(frames, fi, t);
            fi = at;
            let err: i128 = t as i128 - note.time_ms as i128 * ONE as i128;
            let dx: i128 = cx - (note.x as i128 - ONE as i128);
            let dy: i128 = cy - (ONE as i128 - note.y as i128);
            hit_details.push(
                HitDetail {
                    hit_ms: t,
                    err_ms: err as i64,
                    off_x: dx as i64,
                    off_y: dy as i64,
                },
            );
            proof {
                last = t as int;
                let all = details_of(results, notes@, frames@);
                assert(all.take(k + 1) =~= all.take(k as int).push(all[k as int]));
            }
            k = k + 1;
        }
        proof {
            let all = details_of(results, notes@, frames@);
            assert(all.take(k as int) =~= all);
            assert forall|i: int, j: int| 0 <= i <= j < all.len() implies (
            #[trigger] all[i]).hit_ms <= (#[trigger] all[j]).hit_ms by {
                assert(results[sorted[i]].hit_ms->0 <= results[sorted[j]].hit_ms->0);
            }
        }
        HudState { outcome, hit_details }
    }

    /// The hits registered up to a song time, the most recent last.
    pub fn hits_until(&self, song_time_ms: i64) -> (hits: &[HitDetail])
        requires
            self.wf(),
        ensures
            hits@.len() <= self.hit_details@.len(),
            hits@ == self.hit_details@.take(hits@.len() as int),
            forall|i: int|
                0 <= i < hits@.len() ==> (#[trigger] self.hit_details@[i]).hit_ms <= song_time_ms,
            forall|i: int|
                hits@.len() <= i < self.hit_details@.len() ==> (
                #[trigger] self.hit_details@[i]).hit_ms > song_time_ms,
    {
        let mut lo: usize = 0;
        let mut hi: usize = self.hit_details.len();
        while lo < hi
            invariant
                lo <= hi <= self.hit_details@.len(),
                self.wf(),
                forall|i: int|
                    0 <= i < lo ==> (#[trigger] self.hit_details@[i]).hit_ms <= song_time_ms,
                forall|i: int|
                    hi <= i < self.hit_details@.len() ==> (
                    #[trigger] self.hit_details@[i]).hit_ms > song_time_ms,
            decreases hi - lo,
        {
            let mid: usize = lo + (hi - lo) / 2;
            if self.hit_details[mid].hit_ms <= song_time_ms {
                lo = mid + 1;
            } else {
                hi = mid;
            }
        }
        slice_subrange(self.hit_details.as_slice(), 0, lo)
    }

    /// The hit resolution of every note, in note order.
    pub fn results(&self) -> (r: &[NoteResult])
        ensures
            r@ == self.outcome.results@,
    {
        self.outcome.results.as_slice()
    }

    /// Running values at a song time.
    pub fn stats_at(&self, notes: &[Note], replay: &Replay, song_time_ms: i64) -> (stats: HudStats)
        requires
            self.fits(notes@),
            self.outcome.results@.len() <= NOTE_LIMIT,
            frames_in_range(replay.frames@),
        ensures
            are_stats(stats, self.outcome.results@, notes@, *replay, song_time_ms as int),
    {
        let t: i128 = song_time_ms as i128;
        let ghost results = self.outcome.results@;
        let mut hits: u32 = 0;
        let mut misses: u32 = 0;
        let mut combo: u32 = 0;
        let mut weight: u64 = 0;
        let mut last_hit: Option<i128> = None;
        let mut last_miss: Option<i128> = None;
        let mut ring: RingState = RingState::new();
        let mut fill_at_miss: u32 = 0;
        let mut i: usize = 0;
        while i < self.outcome.results.len()
            invariant
                i <= results.len() <= NOTE_LIMIT,
                results == self.outcome.results@,
                self.fits(notes@),
                t == song_time_ms,
                ({
                    let run = run_after(results, notes@, song_time_ms as int, i as nat);
                    &&& hits == run.hits
                    &&& misses == run.misses
                    &&& combo == run.combo
                    &&& weight == run.weight
                    &&& ring.streak == run.combo
                    &&& ring.floor == run.floor
                    &&& fill_at_miss == run.fill_at_miss
                    &&& last_hit is Some == run.last_hit is Some
                    &&& last_hit is Some ==> last_hit->0 == run.last_hit->0
                    &&& last_miss is Some == run.last_miss is Some
                    &&& last_miss is Some ==> last_miss->0 == run.last_miss->0
                }),
                last_hit is Some ==> -0x1000_0000_0000_0000_0000_0000_0000_0000 <= last_hit->0,
                last_miss is Some ==> -0x1000_0000_0000_0000_0000_0000_0000_0000 <= last_miss->0,
            decreases results.len() - i,
        {
            let r: NoteResult = self.outcome.results[i];
            assert(results[i as int].note_index < notes@.len());
            let note: Note = notes[r.note_index];
            let chart: i128 = note.time_ms as i128 * ONE as i128;
            proof {
                let run = run_after(results, notes@, song_time_ms as int, i as nat);
                lemma_run(results, notes@, song_time_ms as int, i as nat);
                lemma_weight_bound(run.hits, run.weight, i as int);
            }
            if r.hit {
                let ht: i128 = match r.hit_ms {
                    Some(ms) => ms as i128,
                    None => chart,
                };
                if ht <= t {
                    hits = hits + 1;
                    combo = combo + 1;
                    weight = weight + note_multiplier(combo);
                    last_hit = Some(ht);
                    ring.on_hit(song_time_ms);
                }
            } else if chart + (DEFAULT_WINDOW_MS as i128) < t {
                misses = misses + 1;
                combo = 0;
                last_miss = Some(chart + DEFAULT_WINDOW_MS as i128);
                fill_at_miss = ring.on_miss(song_time_ms);
            }
            i = i + 1;
        }
        proof {
            let run = run_after(results, notes@, song_time_ms as int, results.len());
            lemma_run(results, notes@, song_time_ms as int, results.len());
            lemma_weight_bound(run.hits, run.weight, results.len() as int);
        }
        let accuracy_pct: i64 = accuracy(hits, misses);
        HudStats {
            score: 100 * weight as i64,
            points: live_rp(replay.points, accuracy_pct, replay.accuracy_pct),
            combo,
            misses,
            hits,
            resolved: hits + misses,
            accuracy_pct,
            health: health_at(replay.frames.as_slice(), song_time_ms),
            grade: Grade::from_accuracy(accuracy_pct),
            ms_since_hit: time_since(t, last_hit),
            ms_since_miss: time_since(t, last_miss),
            ring_sides: ring.sides_at(song_time_ms),
            ring_progress: ring.progress(),
            ring_fill_at_miss: fill_at_miss,
        }
    }

    /// The cells of notes missed within the last half second, each with the time since it
    /// was due: the marks that flash on a missed note's cell.
    pub fn recent_misses(&self, notes: &[Note], song_time_ms: i64) -> (marks: Vec<(i64, i64, i64)>)
        requires
            self.fits(notes@),
        ensures
            marks@ == marks_at(
                self.outcome.results@,
                notes@,
                song_time_ms as int,
                self.outcome.results@.len(),
            ),
    {
        let mut marks: Vec<(i64, i64, i64)> = Vec::new();
        let mut i: usize = 0;
        while i < self.outcome.results.len()
            invariant
                i <= self.outcome.results@.len(),
                self.fits(notes@),
                marks@ == marks_at(
                    self.outcome.results@,
                    notes@,
                    song_time_ms as int,
                    i as nat,
                ),
            decreases self.outcome.results@.len() - i,
        {
            let r: NoteResult = self.outcome.results[i];
            assert(self.outcome.results@[i as int].note_index < notes@.len());
            if !r.hit {
                let note: Note = notes[r.note_index];
                let age: i128 = song_time_ms as i128 - note.time_ms as i128 * ONE as i128;
                if 0 <= age && age < MISS_X_MS as i128 {
                    marks.push((note.x, note.y, age as i64));
                }
            }
            i = i + 1;
        }
        marks
    }
}

/// The marks of the misses among the first `n` results at a song time.
pub open spec fn marks_at(
    results: Seq<NoteResult>,
    notes: Seq<Note>,
    t: int,
    n: nat,
) -> Seq<(i64, i64, i64)>
    decreases n,
{
    if n == 0 {
        Seq::empty()
    } else {
        let before = marks_at(results, notes, t, (n - 1) as nat);
        let note = notes[results[n - 1].note_index as int];
        let age = t - chart_time(note);
        if !results[n - 1].hit && 0 <= age < MISS_X_MS {
            before.push((note.x, note.y, age as i64))
        } else {
            before
        }
    }
}

proof fn lemma_weight_bound(hits: int, weight: int, n: int)
    requires
        0 <= hits <= n <= NOTE_LIMIT,
        2 * weight <= hits * (hits + 1),
    ensures
        weight <= 92_233_720_325_598_085,
{
    assert(hits * (hits + 1) <= 429_496_729 * 429_496_730) by (nonlinear_arith)
        requires
            0 <= hits <= 429_496_729,
    ;
}

fn accuracy(hits: u32, misses: u32) -> (acc: i64)
    ensures
        acc == live_accuracy(hits as int, misses as int),
        0 <= acc <= 100_000_000,
{
    let total: i128 = hits as i128 + misses as i128;
    if total == 0 {
        return 100 * ONE;
    }
    proof {
        lemma_accuracy_bound(hits as int, total as int);
    }
    assert(100 * ONE == 100_000_000);
    div_nearest(100_000_000 * hits as i128, total) as i64
}

proof fn lemma_accuracy_bound(hits: int, total: int)
    requires
        0 <= hits <= total,
        0 < total,
    ensures
        0 <= nearest(100 * ONE * hits, total) <= 100_000_000,
{
    let n = 100_000_000 * hits;
    assert(0 <= (2 * n + total) / (2 * total) <= 100_000_000) by (nonlinear_arith)
        requires
            n == 100_000_000 * hits,
            0 <= hits <= total,
            0 < total,
    {
        assert(2 * n + total < 100_000_001 * (2 * total)) by (nonlinear_arith)
            requires
                n == 100_000_000 * hits,
                0 <= hits <= total,
                0 < total,
        ;
    }
}

fn time_since(t: i128, since: Option<i128>) -> (r: Option<u128>)
    requires
        -0x1000_0000_0000_0000_0000_0000_0000_0000 <= t <= i64::MAX,
        since is Some ==> -0x1000_0000_0000_0000_0000_0000_0000_0000 <= since->0,
    ensures
        same_number(
            r,
            elapsed(
                t as int,
                match since {
                    Some(s) => Some(s as int),
                    None => None,
                },
            ),
        ),
{
    match since {
        Some(s) => {
            if t > s {
                Some((t - s) as u128)
            } else {
                Some(0)
            }
        },
        None => None,
    }
}

/// Whether the first `n` notes are all known at a song time: each hit has landed, and the window of
/// each miss is over.
pub open spec fn all_known(results: Seq<NoteResult>, notes: Seq<Note>, t: int, n: nat) -> bool {
    forall|i: int|
        0 <= i < n ==> {
            let note = notes[(#[trigger] results[i]).note_index as int];
            &&& results[i].hit ==> match results[i].hit_ms {
                Some(ms) => ms <= t,
                None => note.time_ms * 1_000_000 <= t,
            }
            &&& !results[i].hit ==> note.time_ms * 1_000_000 + 80_000_000 < t
        }
}

/// The combo is the streak of hits that the run ends on: it reaches back to the last miss, or to
/// the start. Every hit scores a hundred points times the streak that it makes, a miss nothing; and
/// hits and misses together are the notes.
pub proof fn law_combo_is_the_streak(results: Seq<NoteResult>, notes: Seq<Note>, t: int, n: nat)
    requires
        n <= results.len(),
        all_known(results, notes, t, n),
    ensures
        ({
            let run = run_after(results, notes, t, n);
            let c = run.combo;
            &&& 0 <= c <= n
            &&& run.hits + run.misses == n
            &&& forall|i: int| n - c <= i < n ==> (#[trigger] results[i]).hit
            &&& c < n ==> !results[n - c - 1].hit
            &&& n > 0 ==> ({
                let before = run_after(results, notes, t, (n - 1) as nat);
                &&& 100 * run.weight - 100 * before.weight == 100 * c
                &&& results[n - 1].hit ==> c == before.combo + 1 && run.hits == before.hits + 1
                &&& !results[n - 1].hit ==> c == 0 && run.misses == before.misses + 1
            })
        }),
    decreases n,
{
    if n > 0 {
        assert(all_known(results, notes, t, (n - 1) as nat));
        law_combo_is_the_streak(results, notes, t, (n - 1) as nat);
        assert(results[n - 1].hit || !results[n - 1].hit);
    }
}

/// What has not happened yet does not count: a note that is not known at a song time changes none
/// of the values.
pub proof fn law_the_future_does_not_count(
    results: Seq<NoteResult>,
    notes: Seq<Note>,
    t: int,
    n: nat,
)
    requires
        0 < n <= results.len(),
        ({
            let r = results[n - 1];
            let due = notes[r.note_index as int].time_ms * 1_000_000;
            &&& r.hit ==> (r.hit_ms matches Some(ms) && ms > t)
            &&& !r.hit ==> due + 80_000_000 >= t
        }),
    ensures
        run_after(results, notes, t, n) == run_after(results, notes, t, (n - 1) as nat),
{
}

/// Accuracy is the share of hits: all of them are a hundred percent, none of them nothing, one more
/// hit never lowers it and one more miss never raises it.
pub proof fn law_accuracy_is_the_share_of_hits(hits: int, misses: int)
    requires
        hits >= 0,
        misses >= 0,
    ensures
        live_accuracy(hits, 0) == 100_000_000,
        misses > 0 ==> live_accuracy(0, misses) == 0,
        hits + misses > 0 ==> 2 * magnitude(
            (hits + misses) * live_accuracy(hits, misses) - 100_000_000 * hits,
        ) <= hits + misses,
        0 <= live_accuracy(hits, misses) <= 100_000_000,
        live_accuracy(hits, misses) <= live_accuracy(hits + 1, misses),
        live_accuracy(hits, misses + 1) <= live_accuracy(hits, misses),
{
    lemma_accuracy(hits, misses);
    lemma_accuracy(hits + 1, misses);
    lemma_accuracy(hits, misses + 1);
    lemma_accuracy(hits, 0);
    lemma_accuracy(0, misses);
    if hits + misses > 0 {
        let n = hits + misses;
        assert(hits * (n + 1) <= (hits + 1) * n) by (nonlinear_arith)
            requires
                0 <= hits <= n,
        ;
        assert(hits * n <= hits * (n + 1)) by (nonlinear_arith)
            requires
                0 <= hits,
        ;
        lemma_accuracy_order(hits, hits + misses, hits + 1, hits + misses + 1);
        lemma_accuracy_order(hits, hits + misses + 1, hits, hits + misses);
    }
}

proof fn lemma_accuracy(hits: int, misses: int)
    requires
        hits >= 0,
        misses >= 0,
    ensures
        hits + misses > 0 ==> 2 * magnitude(
            (hits + misses) * live_accuracy(hits, misses) - 100_000_000 * hits,
        ) <= hits + misses,
        0 <= live_accuracy(hits, misses) <= 100_000_000,
        misses == 0 ==> live_accuracy(hits, misses) == 100_000_000,
        hits == 0 && misses > 0 ==> live_accuracy(hits, misses) == 0,
{
    let n = hits + misses;
    if n > 0 {
        law_rounding_is_closest(100 * ONE * hits, n);
        law_rounding_keeps_whole_numbers(100_000_000, 0, n);
        law_rounding_is_monotone(100 * ONE * hits, n * 100_000_000, n);
        crate::fixed::lemma_nearest_bound(100 * ONE * hits, n);
        crate::fixed::lemma_nearest_bound(0, n);
        if misses == 0 {
            assert(100 * ONE * hits == n * 100_000_000);
        }
    }
}

proof fn lemma_accuracy_order(a: int, m: int, b: int, n: int)
    requires
        0 <= a <= m,
        0 <= b <= n,
        m > 0,
        n > 0,
        a * n <= b * m,
    ensures
        nearest(100 * ONE * a, m) <= nearest(100 * ONE * b, n),
{
    let (p, q) = (nearest(100 * ONE * a, m), nearest(100 * ONE * b, n));
    let (x, y) = (100_000_000 * a, 100_000_000 * b);
    law_rounding_is_closest(x, m);
    law_rounding_is_closest(y, n);
    if p > q {
        // Both lie on one side of the middle between two whole numbers.
        let (u, v) = ((2 * x + m) / (2 * m), (2 * y + n) / (2 * n));
        assert(u == p && v == q);
        assert((2 * m) * p <= 2 * x + m) by (nonlinear_arith)
            requires
                p == (2 * x + m) / (2 * m),
                m > 0,
        ;
        assert((2 * n) * (q + 1) > 2 * y + n) by (nonlinear_arith)
            requires
                q == (2 * y + n) / (2 * n),
                n > 0,
        ;
        assert(x * n <= y * m) by (nonlinear_arith)
            requires
                x == 100_000_000 * a,
                y == 100_000_000 * b,
                a * n <= b * m,
        ;
        assert(false) by (nonlinear_arith)
            requires
                (2 * m) * p <= 2 * x + m,
                (2 * n) * (q + 1) > 2 * y + n,
                p >= q + 1,
                x * n <= y * m,
                m > 0,
                n > 0,
        {
            let w = q + 1;
            assert((2 * m) * w <= 2 * x + m) by (nonlinear_arith)
                requires
                    (2 * m) * p <= 2 * x + m,
                    p >= w,
                    m > 0,
            ;
            assert(n * ((2 * m) * w) <= n * (2 * x + m)) by (nonlinear_arith)
                requires
                    (2 * m) * w <= 2 * x + m,
                    n > 0,
            ;
            assert(m * ((2 * n) * w) > m * (2 * y + n)) by (nonlinear_arith)
                requires
                    (2 * n) * w > 2 * y + n,
                    m > 0,
            ;
            assert(n * ((2 * m) * w) == m * ((2 * n) * w)) by (nonlinear_arith);
            assert(n * (2 * x + m) == 2 * (x * n) + m * n) by (nonlinear_arith);
            assert(m * (2 * y + n) == 2 * (y * m) + m * n) by (nonlinear_arith);
        }
    }
}

/// Live points never fall as accuracy rises, are none at ninety percent and below, and are the final
/// ones at the final accuracy.
pub proof fn law_points_rise_with_accuracy(rp: int, lower: int, higher: int, acc_final: int)
    requires
        0 < rp <= i64::MAX,
        lower <= higher,
        acc_final > 90_100_000,
    ensures
        points_at(rp, lower, acc_final) <= points_at(rp, higher, acc_final),
        lower <= 90_000_000 ==> points_at(rp, lower, acc_final) == 0,
        points_at(rp, acc_final, acc_final) == rp,
{
    law_runs_end_on_their_points(rp, acc_final);
    let (a, b) = (above_ninety(lower), above_ninety(higher));
    let end = above_ninety(acc_final);
    lemma_cube_positive(end);
    assert(0 <= a * a * a <= b * b * b) by (nonlinear_arith)
        requires
            0 <= a <= b,
    {
        assert(0 <= a * a <= b * b) by (nonlinear_arith)
            requires
                0 <= a <= b,
        ;
        assert(0 <= a * a * a <= b * b * b) by (nonlinear_arith)
            requires
                0 <= a <= b,
                0 <= a * a <= b * b,
        ;
    }
    assert(rp * (a * a * a) <= rp * (b * b * b)) by (nonlinear_arith)
        requires
            rp > 0,
            a * a * a <= b * b * b,
    ;
    law_rounding_is_monotone(
        rp * (a * a * a),
        rp * (b * b * b),
        end * end * end,
    );
    if lower <= 90_000_000 {
        assert(rp * (a * a * a) == 0) by (nonlinear_arith)
            requires
                a == 0,
        ;
        crate::fixed::lemma_nearest_bound(0, end * end * end);
    }
}

/// A grade never gets worse with the accuracy; the best is for a run without a miss, and the bounds
/// of the others are 99, 95, 90 and 85 percent.
pub proof fn law_grades_go_by_accuracy(hits: int, misses: int, acc: int, more: int)
    requires
        hits >= 0,
        misses >= 0,
        acc <= more,
    ensures
        misses == 0 ==> grade_of(live_accuracy(hits, misses)) is SS,
        0 < misses && hits + misses <= 50_000_000 ==> !(grade_of(live_accuracy(hits, misses)) is SS),
        grade_of(acc) is SS <==> acc >= 100_000_000,
        grade_of(acc) is S <==> 99_000_000 <= acc < 100_000_000,
        grade_of(acc) is A <==> 95_000_000 <= acc < 99_000_000,
        grade_of(acc) is B <==> 90_000_000 <= acc < 95_000_000,
        grade_of(acc) is C <==> 85_000_000 <= acc < 90_000_000,
        grade_of(acc) is D ==> grade_of(more) is D || more >= 85_000_000,
        grade_of(acc) is SS ==> grade_of(more) is SS,
{
    law_accuracy_is_the_share_of_hits(hits, misses);
    if 0 < misses && hits + misses <= 50_000_000 {
        let (n, a) = (hits + misses, live_accuracy(hits, misses));
        assert(a < 100_000_000) by (nonlinear_arith)
            requires
                2 * magnitude(n * a - 100_000_000 * hits) <= n,
                n == hits + misses,
                misses > 0,
                n <= 50_000_000,
        ;
    }
}

/// The ring starts as a triangle, gains a side every 8 hits in a row up to 8 sides, fills by
/// eighths in between, and loses one side with a miss.
pub proof fn law_the_ring_counts_in_eights(streak: int, floor: int)
    requires
        0 <= streak,
        3 <= floor <= 8,
    ensures
        streak < 40 ==> 8 * (ring_sides(3, streak) - 3) + ring_fill(streak) == streak,
        streak < 40 ==> 0 <= ring_fill(streak) < 8,
        streak >= 40 ==> ring_sides(3, streak) == 8 && ring_fill(streak) == 8,
        ring_sides(floor, streak) >= floor,
        ring_sides(floor, 0) == floor,
        floor_after_miss(floor, 0) == (if floor > 3 {
            floor - 1
        } else {
            3
        }),
{
}

/// The health shown at a frame is that frame's, and between two frames it goes evenly from the
/// health of the one to that of the other; before the first and after the last it is theirs.
pub proof fn law_health_goes_from_frame_to_frame(frames: Seq<Frame>, i: int, t: int)
    requires
        frames_in_time(frames),
        0 <= i < frames.len(),
        i == 0 || frames[i - 1].ms < frames[i].ms,
    ensures
        health_curve(frames, frames[i].ms as int) == frames[i].health,
        t <= frames[0].ms ==> health_curve(frames, t) == frames[0].health,
        t > frames[frames.len() - 1].ms ==> health_curve(frames, t) == frames[frames.len()
            - 1].health,
        i > 0 && frames[i - 1].ms < t < frames[i].ms ==> ({
            let (a, b) = (frames[i - 1], frames[i]);
            let h = health_curve(frames, t);
            &&& 2 * magnitude((b.ms - a.ms) * (h - a.health) - (b.health - a.health) * (t - a.ms))
                <= b.ms - a.ms
            &&& a.health <= b.health ==> a.health <= h <= b.health
            &&& b.health <= a.health ==> b.health <= h <= a.health
        }),
{
    lemma_first_flag(frames, frames[i].ms as int);
    lemma_first_flag(frames, t);
    let at = first_not_before(frames, 0, frames[i].ms as int);
    assert(at == i) by {
        if at < i {
            assert(frames[at].ms <= frames[i - 1].ms);
        }
        if at > i {
            assert(frames[i].ms < frames[i].ms);
        }
    }
    let k = first_not_before(frames, 0, t);
    if t > frames[frames.len() - 1].ms {
        if k < frames.len() {
            assert(frames[k].ms <= frames[frames.len() - 1].ms);
        }
    }
    if t <= frames[0].ms && k > 0 {
        assert(frames[0].ms < t);
    }
    if i > 0 && frames[i - 1].ms < t < frames[i].ms {
        assert(k == i) by {
            if k < i {
                assert(frames[k].ms <= frames[i - 1].ms);
            }
            if k > i {
                assert(frames[i].ms < t);
            }
        }
        let (a, b) = (frames[i - 1], frames[i]);
        law_rounding_is_closest((b.health - a.health) * (t - a.ms), b.ms - a.ms);
        law_lines_join_their_ends(a.health as int, b.health as int, t - a.ms, b.ms - a.ms);
    }
}

proof fn lemma_first_flag(frames: Seq<Frame>, t: int)
    ensures
        ({
            let k = first_not_before(frames, 0, t);
            &&& 0 <= k <= frames.len()
            &&& k < frames.len() ==> frames[k].ms >= t
            &&& forall|j: int| 0 <= j < k ==> (#[trigger] frames[j]).ms < t
        }),
{
    lemma_first_flag_from(frames, 0, t);
}

proof fn lemma_first_flag_from(frames: Seq<Frame>, from: int, t: int)
    requires
        0 <= from <= frames.len(),
    ensures
        ({
            let k = first_not_before(frames, from, t);
            &&& from <= k <= frames.len()
            &&& k < frames.len() ==> frames[k].ms >= t
            &&& forall|j: int| from <= j < k ==> (#[trigger] frames[j]).ms < t
        }),
    decreases frames.len() - from,
{
    if from < frames.len() && frames[from].ms < t {
        lemma_first_flag_from(frames, from + 1, t);
    }
}

/// The time since the last hit counts from the last note in the list that is known to be hit, that
/// since the last miss from the end of the window of the last one known to be missed; there is
/// none before the first.
pub proof fn law_times_count_from_the_last_note(
    results: Seq<NoteResult>,
    notes: Seq<Note>,
    t: int,
    n: nat,
    i: int,
)
    requires
        n <= results.len(),
        all_known(results, notes, t, n),
        0 <= i < n,
    ensures
        ({
            let run = run_after(results, notes, t, n);
            let due = notes[results[i].note_index as int].time_ms * 1_000_000;
            &&& results[i].hit && (forall|j: int| i < j < n ==> !(#[trigger] results[j]).hit) ==> (
            run.last_hit matches Some(h) && (results[i].hit_ms matches Some(ms) ==> h == ms) && (
            results[i].hit_ms is None ==> h == due))
            &&& !results[i].hit && (forall|j: int| i < j < n ==> (#[trigger] results[j]).hit)
                ==> run.last_miss == Some(due + 80_000_000)
            &&& (forall|j: int| 0 <= j < n ==> !(#[trigger] results[j]).hit) ==> run.last_hit is None
            &&& (forall|j: int| 0 <= j < n ==> (#[trigger] results[j]).hit) ==> run.last_miss is None
        }),
    decreases n,
{
    let m = (n - 1) as nat;
    assert(results[m as int].note_index == results[n - 1].note_index);
    if i < m {
        law_times_count_from_the_last_note(results, notes, t, m, i);
    } else {
        lemma_none_before(results, notes, t, m);
    }
}

proof fn lemma_none_before(results: Seq<NoteResult>, notes: Seq<Note>, t: int, n: nat)
    requires
        n <= results.len(),
    ensures
        (forall|j: int| 0 <= j < n ==> !(#[trigger] results[j]).hit) ==> run_after(
            results,
            notes,
            t,
            n,
        ).last_hit is None,
        (forall|j: int| 0 <= j < n ==> (#[trigger] results[j]).hit) ==> run_after(
            results,
            notes,
            t,
            n,
        ).last_miss is None,
    decreases n,
{
    if n > 0 {
        lemma_none_before(results, notes, t, (n - 1) as nat);
    }
}

/// A missed note is marked at its place from its time on for half a second, with its age; nothing
/// else is marked.
pub proof fn law_misses_are_marked_for_half_a_second(
    results: Seq<NoteResult>,
    notes: Seq<Note>,
    t: int,
    n: nat,
    i: int,
)
    requires
        n <= results.len(),
        0 <= i < n,
    ensures
        ({
            let note = notes[results[i].note_index as int];
            let age = t - note.time_ms * 1_000_000;
            &&& !results[i].hit && 0 <= age < 500_000_000 ==> marks_at(
                results,
                notes,
                t,
                n,
            ).contains((note.x, note.y, age as i64))
        }),
        forall|k: int|
            0 <= k < marks_at(results, notes, t, n).len() ==> 0 <= (#[trigger] marks_at(
                results,
                notes,
                t,
                n,
            )[k]).2 < 500_000_000,
        marks_at(results, notes, t, n).len() == tally(
            |j: int|
                !results[j].hit && 0 <= t - notes[results[j].note_index as int].time_ms * 1_000_000
                    < 500_000_000,
            n,
        ),
    decreases n,
{
    let m = (n - 1) as nat;
    let (before, marks) = (marks_at(results, notes, t, m), marks_at(results, notes, t, n));
    let note = notes[results[i].note_index as int];
    let age = t - note.time_ms * 1_000_000;
    let mark = (note.x, note.y, age as i64);
    if m > 0 {
        law_misses_are_marked_for_half_a_second(
            results,
            notes,
            t,
            m,
            if i < m {
                i
            } else {
                0
            },
        );
    } else {
        assert(before.len() == 0);
    }
    let shown = |j: int|
        !results[j].hit && 0 <= t - notes[results[j].note_index as int].time_ms * 1_000_000
            < 500_000_000;
    assert(tally(shown, n) == tally(shown, m) + if shown(m as int) {
        1nat
    } else {
        0nat
    });
    assert(tally(shown, 0) == 0);
    assert(before.len() == tally(shown, m));
    assert forall|k: int| 0 <= k < marks.len() implies 0 <= (#[trigger] marks[k]).2 < 500_000_000 by {
        if k < before.len() {
            assert(marks[k] == before[k]);
        }
    }
    if !results[i].hit && 0 <= age < 500_000_000 {
        if i < m {
            let k = choose|k: int| 0 <= k < before.len() && before[k] == mark;
            assert(marks[k] == mark);
        } else {
            assert(marks[before.len() as int] == mark);
        }
    }
}

/// Where frames never share a time, the cursor of a hit is where the run's cursor is at that time.
pub proof fn law_hits_find_the_cursor_of_the_run(frames: Seq<Frame>, t: int)
    requires
        frames.len() > 0,
        forall|i: int, j: int|
            0 <= i < j < frames.len() ==> (#[trigger] frames[i]).ms < (#[trigger] frames[j]).ms,
    ensures
        cursor_at_hit(frames, t) == crate::motion::place(frames, t),
{
    let k = first_not_before(frames, 0, t + 1);
    lemma_first_flag(frames, t + 1);
    lemma_reached(frames, 0, t);
    let i = reached(frames, 0, t);
    if k == 0 {
        assert(i == 0) by {
            if i > 0 {
                assert(frames[0].ms < frames[i].ms);
            }
        }
        if frames.len() > 1 {
            assert(frames[0].ms < frames[1].ms);
            let (a, b) = (frames[0], frames[1]);
            law_lines_join_their_ends(a.x as int, b.x as int, 0, b.ms - a.ms);
            law_lines_join_their_ends(a.y as int, b.y as int, 0, b.ms - a.ms);
        }
    } else {
        assert(frames[k - 1].ms <= t);
        assert(i == k - 1) by {
            if i < k - 1 {
                assert(frames[i + 1].ms <= frames[k - 1].ms);
            }
            if i > k - 1 {
                assert(frames[k].ms <= frames[i].ms);
            }
        }
        if k < frames.len() {
            assert(frames[i].ms < frames[i + 1].ms);
        }
    }
}

proof fn lemma_reached(frames: Seq<Frame>, from: int, t: int)
    requires
        0 <= from < frames.len(),
    ensures
        ({
            let i = reached(frames, from, t);
            &&& from <= i < frames.len()
            &&& i + 1 < frames.len() ==> frames[i + 1].ms > t
            &&& i > from ==> frames[i].ms <= t
        }),
    decreases frames.len() - from,
{
    if from + 1 < frames.len() && frames[from + 1].ms <= t {
        lemma_reached(frames, from + 1, t);
    }
}

/// Every hit has its details, each one once: how late it was, and how far the cursor was off the
/// place at which the scene shows the note.
pub proof fn law_hits_have_their_details(
    results: Seq<NoteResult>,
    notes: Seq<Note>,
    frames: Seq<Frame>,
    note: Note,
    t: i64,
)
    requires
        magnitude(t - note.time_ms * 1_000_000) <= i64::MAX,
        magnitude(cursor_at_hit(frames, t as int).0 - note.x) <= 1_000_000_000_000_000_000,
        magnitude(cursor_at_hit(frames, t as int).1 + note.y) <= 1_000_000_000_000_000_000,
    ensures
        details_of(results, notes, frames).len() == tally(|i: int| results[i].hit, results.len()),
        ({
            let d = detail_of(frames, note, t);
            let (cx, cy) = cursor_at_hit(frames, t as int);
            let (nx, ny) = crate::scene::world_of(note.x as int, note.y as int);
            &&& d.hit_ms == t
            &&& d.err_ms + note.time_ms * 1_000_000 == t
            &&& d.off_x == cx - nx
            &&& d.off_y == cy - ny
        }),
{
    lemma_every_hit_once(results, results.len());
}

proof fn lemma_every_hit_once(results: Seq<NoteResult>, n: nat)
    ensures
        by_hit_time(results, n).len() == tally(|i: int| results[i].hit, n),
    decreases n,
{
    if n > 0 {
        lemma_every_hit_once(results, (n - 1) as nat);
        if results[n - 1].hit {
            lemma_one_more(by_hit_time(results, (n - 1) as nat), results, n - 1);
        }
    }
}

proof fn lemma_one_more(order: Seq<int>, results: Seq<NoteResult>, i: int)
    ensures
        with_note(order, results, i).len() == order.len() + 1,
    decreases order.len(),
{
    if order.len() > 0 && results[order.last()].hit_ms->0 > results[i].hit_ms->0 {
        lemma_one_more(order.drop_last(), results, i);
    }
}

/// Once all notes are known, the hits counted are the notes that were hit and the misses all others.
pub proof fn law_every_note_is_counted(results: Seq<NoteResult>, notes: Seq<Note>, t: int, n: nat)
    requires
        n <= results.len(),
        all_known(results, notes, t, n),
    ensures
        run_after(results, notes, t, n).hits == tally(|i: int| results[i].hit, n),
        run_after(results, notes, t, n).misses == tally(|i: int| !results[i].hit, n),
    decreases n,
{
    if n > 0 {
        law_every_note_is_counted(results, notes, t, (n - 1) as nat);
        assert(results[n - 1].note_index == results[n - 1].note_index);
    }
}

/// The hits are put in order of their time, every one of them and nothing else.
pub proof fn law_hits_are_ordered_by_time(results: Seq<NoteResult>, n: nat)
    ensures
        forall|i: int|
            0 <= i < n && (#[trigger] results[i]).hit ==> by_hit_time(results, n).contains(i),
        forall|k: int|
            0 <= k < by_hit_time(results, n).len() ==> 0 <= (#[trigger] by_hit_time(results, n)[k])
                < n && results[by_hit_time(results, n)[k]].hit,
        forall|j: int, k: int|
            0 <= j <= k < by_hit_time(results, n).len() ==> results[#[trigger] by_hit_time(
                results,
                n,
            )[j]].hit_ms->0 <= results[#[trigger] by_hit_time(results, n)[k]].hit_ms->0,
    decreases n,
{
    if n > 0 {
        let m = (n - 1) as nat;
        law_hits_are_ordered_by_time(results, m);
        if results[n - 1].hit {
            lemma_put_in_order(by_hit_time(results, m), results, n - 1);
        }
    }
}

proof fn lemma_put_in_order(order: Seq<int>, results: Seq<NoteResult>, i: int)
    requires
        forall|j: int, k: int|
            0 <= j <= k < order.len() ==> results[#[trigger] order[j]].hit_ms->0
                <= results[#[trigger] order[k]].hit_ms->0,
    ensures
        ({
            let after = with_note(order, results, i);
            &&& after.len() == order.len() + 1
            &&& after.contains(i)
            &&& forall|x: int| order.contains(x) ==> #[trigger] after.contains(x)
            &&& forall|k: int|
                0 <= k < after.len() ==> (#[trigger] after[k]) == i || order.contains(after[k])
            &&& forall|j: int, k: int|
                0 <= j <= k < after.len() ==> results[#[trigger] after[j]].hit_ms->0
                    <= results[#[trigger] after[k]].hit_ms->0
        }),
    decreases order.len(),
{
    let after = with_note(order, results, i);
    if order.len() > 0 && results[order.last()].hit_ms->0 > results[i].hit_ms->0 {
        let rest = order.drop_last();
        lemma_put_in_order(rest, results, i);
        let before = with_note(rest, results, i);
        let last = order.last();
        assert(after == before.push(last));
        assert(after[after.len() - 1] == last);
        let at = choose|k: int| 0 <= k < before.len() && before[k] == i;
        assert(after[at] == i);
        assert forall|x: int| order.contains(x) implies #[trigger] after.contains(x) by {
            let k = choose|k: int| 0 <= k < order.len() && order[k] == x;
            if k < rest.len() {
                assert(rest[k] == x);
                assert(before.contains(x));
                let q = choose|q: int| 0 <= q < before.len() && before[q] == x;
                assert(after[q] == x);
            }
        }
        assert forall|k: int| 0 <= k < after.len() implies (#[trigger] after[k]) == i
            || order.contains(after[k]) by {
            if k < before.len() {
                assert(after[k] == before[k]);
                if before[k] != i {
                    assert(rest.contains(before[k]));
                    let q = choose|q: int| 0 <= q < rest.len() && rest[q] == before[k];
                    assert(order[q] == before[k]);
                }
            } else {
                assert(order[order.len() - 1] == last);
            }
        }
        assert forall|j: int, k: int| 0 <= j <= k < after.len() implies results[
            #[trigger] after[j]
        ].hit_ms->0 <= results[#[trigger] after[k]].hit_ms->0 by {
            if k < before.len() {
                assert(after[j] == before[j] && after[k] == before[k]);
            } else if j < before.len() {
                assert(after[j] == before[j]);
                if before[j] != i {
                    let q = choose|q: int| 0 <= q < rest.len() && rest[q] == before[j];
                    assert(order[q] == before[j]);
                    assert(order[order.len() - 1] == last);
                }
            }
        }
    } else {
        assert(after == order.push(i));
        assert(after[order.len() as int] == i);
        assert forall|x: int| order.contains(x) implies #[trigger] after.contains(x) by {
            let k = choose|k: int| 0 <= k < order.len() && order[k] == x;
            assert(after[k] == x);
        }
        assert forall|j: int, k: int| 0 <= j <= k < after.len() implies results[
            #[trigger] after[j]
        ].hit_ms->0 <= results[#[trigger] after[k]].hit_ms->0 by {
            if k < order.len() {
                assert(after[j] == order[j] && after[k] == order[k]);
            } else if j < order.len() {
                assert(after[j] == order[j]);
                assert(order.last() == order[order.len() - 1]);
            }
        }
    }
}

/// Points go with the third power of how far the accuracy lies above 90 percent: half as far is an
/// eighth of the points.
pub proof fn law_points_go_with_the_third_power(rp: int, above: int, acc_final: int)
    requires
        0 < rp <= i64::MAX,
        acc_final > 90_100_000,
        0 <= above <= acc_final - 90_000_000,
    ensures
        ({
            let end = acc_final - 90_000_000;
            2 * magnitude(
                end * end * end * points_at(rp, 90_000_000 + above, acc_final) - rp * (above * above
                    * above),
            ) <= end * end * end
        }),
        acc_final % 2 == 0 ==> magnitude(
            8 * points_at(rp, 90_000_000 + (acc_final - 90_000_000) / 2, acc_final) - rp,
        ) <= 4,
{
    let end = acc_final - 90_000_000;
    let cube = end * end * end;
    lemma_points_bound(rp, above, end);
    law_rounding_is_closest(rp * (above * above * above), cube);
    if acc_final % 2 == 0 {
        let h = end / 2;
        lemma_points_bound(rp, h, end);
        law_rounding_is_closest(rp * (h * h * h), cube);
        let k = h * h * h;
        assert(cube == 8 * k) by (nonlinear_arith)
            requires
                cube == end * end * end,
                k == h * h * h,
                end == 2 * h,
        ;
        let q = points_at(rp, 90_000_000 + h, acc_final);
        assert(magnitude(8 * q - rp) <= 4) by (nonlinear_arith)
            requires
                2 * magnitude(cube * q - rp * k) <= cube,
                cube == 8 * k,
                k > 0,
        ;
    }
}

proof fn lemma_points_bound(rp: int, now: int, end: int)
    requires
        0 < rp <= i64::MAX,
        0 <= now <= end,
        end > 100_000,
    ensures
        end * end * end > 0,
        nearest(rp * (now * now * now), end * end * end) <= i64::MAX,
        end % 2 == 0 ==> (end / 2) * (end / 2) * (end / 2) > 0,
{
    let cube = end * end * end;
    assert(cube > 0) by (nonlinear_arith)
        requires
            cube == end * end * end,
            end > 0,
    ;
    let h = end / 2;
    assert(h * h * h > 0) by (nonlinear_arith)
        requires
            h > 0,
    ;
    assert(0 <= now * now <= end * end) by (nonlinear_arith)
        requires
            0 <= now <= end,
    ;
    assert(0 <= now * now * now <= cube) by (nonlinear_arith)
        requires
            cube == end * end * end,
            0 <= now * now <= end * end,
            0 <= now <= end,
    ;
    let c = now * now * now;
    assert(rp * c <= cube * rp) by (nonlinear_arith)
        requires
            0 <= c <= cube,
            rp > 0,
    ;
    law_rounding_is_monotone(rp * c, cube * rp, cube);
    law_rounding_keeps_whole_numbers(rp, 0, cube);
}

} // verus!
