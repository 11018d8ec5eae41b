//! A race of two runs: the running score gap, sampled across the map, and the
//! note-synchronized lead.
//!
//! All sampling goes through the same walk that drives the on-screen values, so the
//! series never disagrees with what the viewer sees. A failed run is frozen at its fail
//! time: the game never resolved the later notes.

use vstd::prelude::*;

use crate::fixed::{
    div_nearest, greater, law_rounding_is_closest, law_rounding_is_monotone,
    law_rounding_keeps_whole_numbers, lesser, magnitude, nearest, within, ONE,
};
use crate::hitreg::{chart_time, NoteResult, DEFAULT_WINDOW_MS};
use crate::hud::{run_after, live_accuracy, HudState, HudStats, NOTE_LIMIT};
use crate::replay::{frames_in_range, Beatmap, Note, Replay};

verus! {

/// One run's inputs.
pub struct RaceSide<'a> {
    /// The map as this run's player saw it.
    pub map: &'a Beatmap,
    /// The recorded run.
    pub replay: &'a Replay,
    /// Its hit resolution.
    pub state: &'a HudState,
}

/// The race at one sampled song time.
#[derive(Debug, Clone, Copy, PartialEq, Eq)]
pub struct RaceSample {
    /// Song time, in millionths of a millisecond.
    pub t_ms: i64,
    /// Main minus ghost, in points.
    pub score_delta: i64,
    /// Accuracy of each side in millionths of a percent, the main run first.
    pub acc: [i64; 2],
}

/// The race over the whole map.
#[derive(Debug, Clone)]
pub struct RaceSeries {
    /// The samples in the order of their times.
    pub samples: Vec<RaceSample>,
    /// Sample times at which the lead went to the other side. Zero is neutral.
    pub lead_changes: Vec<i64>,
}

/// The race as the lead widget reads it: a lead exists only once a note is answered by
/// both sides and came out differently.
#[derive(Debug, Clone, Copy, PartialEq, Eq)]
pub struct SyncedRace {
    /// Main minus ghost over the settled notes.
    pub delta: i64,
    /// Score of each side over the settled notes, the main run first.
    pub scores: [i64; 2],
    /// Notes settled by both sides.
    pub settled: u32,
}

impl RaceSide<'_> {
    /// Whether the values of this run can be read at any time.
    pub open spec fn wf(&self) -> bool {
        &&& self.state.fits(self.map.notes@)
        &&& self.state.outcome.results@.len() <= NOTE_LIMIT
        &&& frames_in_range(self.replay.frames@)
    }
}

/// The song time past which a run's values stop moving: the fail time and the hit window
/// and one more millisecond. None where the run did not fail.
pub open spec fn freeze(replay: Replay) -> Option<int> {
    if replay.failed {
        Some(replay.fail_time_ms * ONE + DEFAULT_WINDOW_MS + ONE)
    } else {
        None
    }
}

/// The song time past which a run's values stop moving, in millionths of a millisecond.
pub fn side_end(replay: &Replay) -> (end: Option<i64>)
    ensures
        end is Some == freeze(*replay) is Some,
        end is Some ==> end->0 == freeze(*replay)->0,
{
    if replay.failed {
        Some(replay.fail_time_ms as i64 * ONE + DEFAULT_WINDOW_MS + ONE)
    } else {
        None
    }
}

/// Whether a run was frozen before it resolved a note.
pub open spec fn frozen(note: Note, end: Option<int>) -> bool {
    end is Some && chart_time(note) + DEFAULT_WINDOW_MS >= end->0
}

/// When a note's outcome is known: at the freeze, when the hit lands, or when the window
/// is over.
pub open spec fn known_at(note: Note, r: NoteResult, end: Option<int>) -> int {
    if frozen(note, end) {
        end->0
    } else {
        match r.hit_ms {
            Some(ms) => ms as int,
            None => chart_time(note) + DEFAULT_WINDOW_MS,
        }
    }
}

/// A run as the race reads it.
pub struct Side {
    pub notes: Seq<Note>,
    pub results: Seq<NoteResult>,
    pub end: Option<int>,
}

/// The run of a side.
pub open spec fn side_of(side: &RaceSide) -> Side {
    Side {
        notes: side.map.notes@,
        results: side.state.outcome.results@,
        end: freeze(*side.replay),
    }
}

/// How many notes both sides have.
pub open spec fn shared(main: Side, ghost: Side) -> int {
    lesser(
        lesser(main.results.len() as int, ghost.results.len() as int),
        lesser(main.notes.len() as int, ghost.notes.len() as int),
    )
}

/// Whether note `i` is answered on both sides at a song time.
pub open spec fn answered(main: Side, ghost: Side, i: int, t: int) -> bool {
    &&& 0 <= t
    &&& known_at(main.notes[i], main.results[i], main.end) <= t
    &&& known_at(ghost.notes[i], ghost.results[i], ghost.end) <= t
}

/// The first note at or after `from` that is still pending; the number of shared notes
/// where there is none.
pub open spec fn first_pending(main: Side, ghost: Side, from: int, t: int) -> int
    decreases shared(main, ghost) - from,
{
    if from < 0 || from >= shared(main, ghost) || !answered(main, ghost, from, t) {
        from
    } else {
        first_pending(main, ghost, from + 1, t)
    }
}

/// Combo and score of a side over the first `n` notes. Notes past the freeze count for
/// nothing.
pub open spec fn tallied(side: Side, n: nat) -> (int, int)
    decreases n,
{
    if n == 0 {
        (0, 0)
    } else {
        let (combo, score) = tallied(side, (n - 1) as nat);
        if frozen(side.notes[n - 1], side.end) {
            (combo, score)
        } else if side.results[n - 1].hit {
            (combo + 1, score + 100 * (combo + 1))
        } else {
            (0, score)
        }
    }
}

proof fn lemma_tallied_bound(side: Side, n: nat)
    ensures
        0 <= tallied(side, n).0 <= n,
        0 <= tallied(side, n).1 <= 50 * n * (n + 1),
    decreases n,
{
    if n > 0 {
        lemma_tallied_bound(side, (n - 1) as nat);
        assert(50 * n * (n + 1) == 50 * (n - 1) * n + 100 * n) by (nonlinear_arith);
    }
}

proof fn lemma_score_fits(n: int)
    requires
        0 <= n <= NOTE_LIMIT,
    ensures
        50 * n * (n + 1) <= i64::MAX,
{
    assert(50 * n * (n + 1) <= 50 * 429_496_729 * 429_496_730) by (nonlinear_arith)
        requires
            0 <= n <= 429_496_729,
    ;
}

fn is_frozen(note: &Note, end: Option<i64>) -> (r: bool)
    ensures
        r == frozen(
            *note,
            match end {
                Some(e) => Some(e as int),
                None => None,
            },
        ),
{
    match end {
        Some(e) => note.time_ms as i128 * ONE as i128 + DEFAULT_WINDOW_MS as i128 >= e as i128,
        None => false,
    }
}

fn is_known(note: &Note, r: &NoteResult, end: Option<i64>, t: i64) -> (known: bool)
    ensures
        known == (known_at(
            *note,
            *r,
            match end {
                Some(e) => Some(e as int),
                None => None,
            },
        ) <= t),
{
    if is_frozen(note, end) {
        match end {
            Some(e) => e <= t,
            None => false,
        }
    } else {
        match r.hit_ms {
            Some(ms) => ms <= t,
            None => note.time_ms as i128 * ONE as i128 + DEFAULT_WINDOW_MS as i128 <= t as i128,
        }
    }
}

/// Walks both runs note by note and stops at the first note whose outcome is not yet known
/// on both sides.
pub fn synced_race(main: &RaceSide, ghost: &RaceSide, t_ms: i64) -> (out: SyncedRace)
    requires
        main.state.outcome.results@.len() <= NOTE_LIMIT,
        ghost.state.outcome.results@.len() <= NOTE_LIMIT,
    ensures
        out.settled == first_pending(side_of(main), side_of(ghost), 0, t_ms as int),
        out.scores[0] == tallied(side_of(main), out.settled as nat).1,
        out.scores[1] == tallied(side_of(ghost), out.settled as nat).1,
        out.delta == out.scores[0] - out.scores[1],
{
    let main_end: Option<i64> = side_end(main.replay);
    let ghost_end: Option<i64> = side_end(ghost.replay);
    let ghost m = side_of(main);
    let ghost g = side_of(ghost);
    let mut n: usize = main.state.outcome.results.len();
    if ghost.state.outcome.results.len() < n {
        n = ghost.state.outcome.results.len();
    }
    if main.map.notes.len() < n {
        n = main.map.notes.len();
    }
    if ghost.map.notes.len() < n {
        n = ghost.map.notes.len();
    }
    let mut main_combo: i64 = 0;
    let mut ghost_combo: i64 = 0;
    let mut main_score: i64 = 0;
    let mut ghost_score: i64 = 0;
    let mut i: usize = 0;
    let mut pending: bool = false;
    while i < n && !pending
        invariant
            i <= n <= NOTE_LIMIT,
            n == shared(m, g),
            m == side_of(main),
            g == side_of(ghost),
            main_end is Some == m.end is Some,
            main_end is Some ==> main_end->0 == m.end->0,
            ghost_end is Some == g.end is Some,
            ghost_end is Some ==> ghost_end->0 == g.end->0,
            (main_combo as int, main_score as int) == tallied(m, i as nat),
            (ghost_combo as int, ghost_score as int) == tallied(g, i as nat),
            first_pending(m, g, 0, t_ms as int) == first_pending(m, g, i as int, t_ms as int),
            pending ==> i < n && !answered(m, g, i as int, t_ms as int),
        decreases n - i, (if pending { 0int } else { 1int }),
    {
        let a: Note = main.map.notes[i];
        let b: Note = ghost.map.notes[i];
        let ra: NoteResult = main.state.outcome.results[i];
        let rb: NoteResult = ghost.state.outcome.results[i];
        if t_ms < 0 || !is_known(&a, &ra, main_end, t_ms) || !is_known(&b, &rb, ghost_end, t_ms) {
            pending = true;
        } else {
            proof {
                lemma_tallied_bound(m, (i + 1) as nat);
                lemma_tallied_bound(g, (i + 1) as nat);
                lemma_tallied_bound(m, i as nat);
                lemma_tallied_bound(g, i as nat);
                lemma_score_fits(i + 1);
            }
            if !is_frozen(&a, main_end) {
                if ra.hit {
                    main_combo = main_combo + 1;
                    main_score = main_score + main_combo * 100;
                } else {
                    main_combo = 0;
                }
            }
            if !is_frozen(&b, ghost_end) {
                if rb.hit {
                    ghost_combo = ghost_combo + 1;
                    ghost_score = ghost_score + ghost_combo * 100;
                } else {
                    ghost_combo = 0;
                }
            }
            i = i + 1;
        }
    }
    proof {
        lemma_tallied_bound(m, i as nat);
        lemma_tallied_bound(g, i as nat);
    }
    SyncedRace {
        delta: main_score - ghost_score,
        scores: [main_score, ghost_score],
        settled: i as u32,
    }
}

/// The signed fill of the lead bar: the gap relative to the leader's score, full at half
/// of it, empty over the first notes.
pub open spec fn bar_fill(delta: int, leader_score: int, resolved: int) -> int {
    if resolved < 20 || leader_score <= 0 {
        0
    } else {
        within(nearest(2 * ONE * delta, leader_score), -ONE as int, ONE as int)
    }
}

/// The signed fill of the lead bar from -1 to 1, in millionths; positive where the main run
/// leads.
pub fn race_bar_value(delta: i64, leader_score: i64, resolved: u32) -> (fill: i64)
    ensures
        fill == bar_fill(delta as int, leader_score as int, resolved as int),
{
    if resolved < 20 || leader_score <= 0 {
        return 0;
    }
    assert(2 * ONE * delta == 2_000_000 * delta);
    let q: i128 = div_nearest(2_000_000 * delta as i128, leader_score as i128);
    if q < -(ONE as i128) {
        -ONE
    } else if q > ONE as i128 {
        ONE
    } else {
        q as i64
    }
}

/// The share of the results graph above the zero line: that of the larger lead, with a
/// visible strip left on both sides; half without a lead.
pub open spec fn zero_share(pos_max: int, neg_max: int) -> int {
    if pos_max + neg_max <= 0 {
        500_000
    } else {
        within(nearest(ONE * pos_max, pos_max + neg_max), 120_000, 880_000)
    }
}

/// The share of the results graph above the zero line, in millionths.
pub fn graph_zero_share(pos_max: i64, neg_max: i64) -> (share: i64)
    ensures
        share == zero_share(pos_max as int, neg_max as int),
        120_000 <= share <= 880_000,
{
    let total: i128 = pos_max as i128 + neg_max as i128;
    if total <= 0 {
        return 500_000;
    }
    let q: i128 = div_nearest(1_000_000 * pos_max as i128, total);
    if q < 120_000 {
        120_000
    } else if q > 880_000 {
        880_000
    } else {
        q as i64
    }
}

/// The time of sample `i` of `n`, evenly spaced from `start` to `end`.
pub open spec fn sample_time(start: int, end: int, i: int, n: int) -> int {
    start + nearest((end - start) * i, n - 1)
}

/// A song time up to the freeze.
pub open spec fn until_freeze(t: int, end: Option<int>) -> int {
    match end {
        Some(e) => lesser(t, e),
        None => t,
    }
}

/// Score and accuracy of a run at a song time.
pub open spec fn read_at(side: Side, t: int) -> (int, int) {
    let run = run_after(
        side.results,
        side.notes,
        until_freeze(t, side.end),
        side.results.len(),
    );
    (100 * run.weight, live_accuracy(run.hits, run.misses))
}

/// The race at a song time.
pub open spec fn sample_at(main: Side, ghost: Side, t: int) -> RaceSample {
    RaceSample {
        t_ms: t as i64,
        score_delta: (read_at(main, t).0 - read_at(ghost, t).0) as i64,
        acc: [read_at(main, t).1 as i64, read_at(ghost, t).1 as i64],
    }
}

/// Which side a gap favours.
pub open spec fn leader(delta: int) -> int {
    if delta > 0 {
        1
    } else if delta < 0 {
        -1
    } else {
        0
    }
}

/// The side that led last among the first `n` samples; 0 where none did.
pub open spec fn last_leader(samples: Seq<RaceSample>, n: nat) -> int
    decreases n,
{
    if n == 0 {
        0
    } else if leader(samples[n - 1].score_delta as int) != 0 {
        leader(samples[n - 1].score_delta as int)
    } else {
        last_leader(samples, (n - 1) as nat)
    }
}

/// The times among the first `n` samples at which the lead went to the other side.
pub open spec fn changes(samples: Seq<RaceSample>, n: nat) -> Seq<i64>
    decreases n,
{
    if n == 0 {
        Seq::empty()
    } else {
        let before = changes(samples, (n - 1) as nat);
        let now = leader(samples[n - 1].score_delta as int);
        let last = last_leader(samples, (n - 1) as nat);
        if now != 0 && last != 0 && now != last {
            before.push(samples[n - 1].t_ms)
        } else {
            before
        }
    }
}

fn clip(t: i64, end: Option<i64>) -> (r: i64)
    ensures
        r == until_freeze(
            t as int,
            match end {
                Some(e) => Some(e as int),
                None => None,
            },
        ),
{
    match end {
        Some(e) => if t < e {
            t
        } else {
            e
        },
        None => t,
    }
}

proof fn lemma_sample_between(span: int, i: int, last: int)
    requires
        0 <= i <= last,
        0 < last,
    ensures
        span >= 0 ==> 0 <= nearest(span * i, last) <= span,
        span <= 0 ==> span <= nearest(span * i, last) <= 0,
        i == 0 ==> nearest(span * i, last) == 0,
        i == last ==> nearest(span * i, last) == span,
{
    let k = magnitude(span);
    let m = k * i;
    assert(magnitude(span * i) == m) by (nonlinear_arith)
        requires
            m == magnitude(span) * i,
            0 <= i,
    ;
    let q = (2 * m + last) / (2 * last);
    assert(0 <= q <= k) by (nonlinear_arith)
        requires
            q == (2 * m + last) / (2 * last),
            m == k * i,
            0 <= i <= last,
            0 < last,
            0 <= k,
    {
        assert(0 <= 2 * m + last < (k + 1) * (2 * last)) by (nonlinear_arith)
            requires
                m == k * i,
                0 <= i <= last,
                0 < last,
                0 <= k,
        ;
    }
    if i == last {
        assert(q == k) by (nonlinear_arith)
            requires
                q == (2 * m + last) / (2 * last),
                m == k * last,
                0 < last,
                0 <= k,
        {
            vstd::arithmetic::div_mod::lemma_fundamental_div_mod_converse(
                2 * m + last,
                2 * last,
                k,
                last,
            );
        }
    }
    if i == 0 {
        assert(q == 0) by (nonlinear_arith)
            requires
                q == (2 * m + last) / (2 * last),
                m == 0,
                0 < last,
        ;
    }
    assert(span >= 0 ==> span * i >= 0) by (nonlinear_arith)
        requires
            0 <= i,
    ;
    assert(span < 0 && i > 0 ==> span * i < 0) by (nonlinear_arith);
    assert(i == 0 ==> span * i == 0);
    if span * i >= 0 {
        assert(nearest(span * i, last) == q);
    } else {
        assert(-(span * i) == m);
        assert(nearest(span * i, last) == -q);
    }
}

impl RaceSeries {
    /// Samples both runs at evenly spaced times from `start_ms` to `end_ms`, at least two.
    pub fn build(
        main: &RaceSide,
        ghost: &RaceSide,
        start_ms: i64,
        end_ms: i64,
        samples: usize,
    ) -> (series: RaceSeries)
        requires
            main.wf(),
            ghost.wf(),
            samples <= u32::MAX,
        ensures
            series.samples@.len() == greater(samples as int, 2),
            forall|i: int|
                0 <= i < series.samples@.len() ==> #[trigger] series.samples@[i] == sample_at(
                    side_of(main),
                    side_of(ghost),
                    sample_time(
                        start_ms as int,
                        end_ms as int,
                        i,
                        series.samples@.len() as int,
                    ),
                ),
            series.lead_changes@ == changes(series.samples@, series.samples@.len()),
    {
        let n: usize = if samples < 2 {
            2
        } else {
            samples
        };
        let main_end: Option<i64> = side_end(main.replay);
        let ghost_end: Option<i64> = side_end(ghost.replay);
        let ghost m = side_of(main);
        let ghost g = side_of(ghost);
        let mut list: Vec<RaceSample> = Vec::new();
        let mut lead_changes: Vec<i64> = Vec::new();
        let mut last: i64 = 0;
        let span: i128 = end_ms as i128 - start_ms as i128;
        let mut i: usize = 0;
        while i < n
            invariant
                i <= n,
                2 <= n <= u32::MAX,
                span == end_ms - start_ms,
                main.wf(),
                ghost.wf(),
                m == side_of(main),
                g == side_of(ghost),
                main_end is Some == m.end is Some,
                main_end is Some ==> main_end->0 == m.end->0,
                ghost_end is Some == g.end is Some,
                ghost_end is Some ==> ghost_end->0 == g.end->0,
                list@.len() == i,
                forall|j: int|
                    0 <= j < i ==> #[trigger] list@[j] == sample_at(
                        m,
                        g,
                        sample_time(start_ms as int, end_ms as int, j, n as int),
                    ),
                lead_changes@ == changes(list@, i as nat),
                last == last_leader(list@, i as nat),
            decreases n - i,
        {
            assert(-0x1_0000_0000_0000_0000_0000_0000 < span * i
                < 0x1_0000_0000_0000_0000_0000_0000) by (nonlinear_arith)
                requires
                    -0x1_0000_0000_0000_0000 <= span <= 0x1_0000_0000_0000_0000,
                    0 <= i < 0xffff_ffff,
            ;
            proof {
                lemma_sample_between(span as int, i as int, n - 1);
            }
            let off: i128 = div_nearest(span * i as i128, n as i128 - 1);
            let t: i64 = (start_ms as i128 + off) as i64;
            let a: HudStats = main.state.stats_at(
                main.map.notes.as_slice(),
                main.replay,
                clip(t, main_end),
            );
            let b: HudStats = ghost.state.stats_at(
                ghost.map.notes.as_slice(),
                ghost.replay,
                clip(t, ghost_end),
            );
            proof {
                crate::hud::law_score_is_bounded(
                    m.results,
                    m.notes,
                    until_freeze(t as int, m.end),
                    m.results.len(),
                );
                crate::hud::law_score_is_bounded(
                    g.results,
                    g.notes,
                    until_freeze(t as int, g.end),
                    g.results.len(),
                );
            }
            let delta: i64 = a.score - b.score;
            let ghost before = list@;
            list.push(
                RaceSample {
                    t_ms: t,
                    score_delta: delta,
                    acc: [a.accuracy_pct, b.accuracy_pct],
                },
            );
            proof {
                lemma_changes_prefix(before, list@, i as nat);
                assert(list@[i as int].acc =~= sample_at(m, g, t as int).acc);
                assert(list@[i as int] == sample_at(m, g, t as int));
            }
            let now: i64 = if delta > 0 {
                1
            } else if delta < 0 {
                -1
            } else {
                0
            };
            if now != 0 {
                if last != 0 && now != last {
                    lead_changes.push(t);
                }
                last = now;
            }
            i = i + 1;
        }
        RaceSeries { samples: list, lead_changes }
    }

    /// The standard series: 240 samples from the start of the song to a second past the last
    /// note.
    pub fn for_race(main: &RaceSide, ghost: &RaceSide) -> (series: RaceSeries)
        requires
            main.wf(),
            ghost.wf(),
            main.map.notes@.len() > 0 ==> -9_000_000_000_000 <= main.map.notes@.last().time_ms
                <= 9_000_000_000_000,
        ensures
            series.samples@.len() == 240,
            forall|i: int|
                0 <= i < 240 ==> #[trigger] series.samples@[i] == sample_at(
                    side_of(main),
                    side_of(ghost),
                    sample_time(
                        0,
                        1000 * ONE + if main.map.notes@.len() > 0 {
                            chart_time(main.map.notes@.last())
                        } else {
                            0
                        },
                        i,
                        240,
                    ),
                ),
            series.lead_changes@ == changes(series.samples@, 240),
    {
        let last: usize = main.map.notes.len();
        let end: i64 = if last > 0 {
            main.map.notes[last - 1].time_ms * ONE + 1000 * ONE
        } else {
            1000 * ONE
        };
        RaceSeries::build(main, ghost, 0, end, 240)
    }
}

proof fn lemma_changes_prefix(a: Seq<RaceSample>, b: Seq<RaceSample>, n: nat)
    requires
        n <= a.len(),
        n <= b.len(),
        forall|i: int| 0 <= i < n ==> #[trigger] a[i] == b[i],
    ensures
        changes(a, n) == changes(b, n),
        last_leader(a, n) == last_leader(b, n),
    decreases n,
{
    if n > 0 {
        lemma_changes_prefix(a, b, (n - 1) as nat);
        assert(a[n - 1] == b[n - 1]);
    }
}

/// The first sample lies at the start, the last at the end, and all others in between.
pub proof fn law_samples_span_the_range(start: int, end: int, i: int, n: int)
    requires
        0 <= i < n,
        n >= 2,
        start <= end,
    ensures
        sample_time(start, end, 0, n) == start,
        sample_time(start, end, n - 1, n) == end,
        start <= sample_time(start, end, i, n) <= end,
{
    lemma_sample_between(end - start, 0, n - 1);
    lemma_sample_between(end - start, n - 1, n - 1);
    lemma_sample_between(end - start, i, n - 1);
}

/// An even race shows no lead: where both runs answer every settled note alike and are frozen
/// at the same ones, the scores are the same, whoever was earlier.
pub proof fn law_even_race_has_no_lead(main: Side, ghost: Side, n: nat)
    requires
        n <= main.results.len(),
        n <= ghost.results.len(),
        forall|i: int|
            0 <= i < n ==> (#[trigger] main.results[i]).hit == ghost.results[i].hit && frozen(
                main.notes[i],
                main.end,
            ) == frozen(ghost.notes[i], ghost.end),
    ensures
        tallied(main, n) == tallied(ghost, n),
    decreases n,
{
    if n > 0 {
        law_even_race_has_no_lead(main, ghost, (n - 1) as nat);
        assert(main.results[n - 1].hit == ghost.results[n - 1].hit);
    }
}

/// The settled notes never shrink as time goes on.
pub proof fn law_settled_grows(main: Side, ghost: Side, from: int, earlier: int, later: int)
    requires
        earlier <= later,
        0 <= from,
    ensures
        first_pending(main, ghost, from, earlier) <= first_pending(main, ghost, from, later),
    decreases shared(main, ghost) - from,
{
    if from < shared(main, ghost) {
        if answered(main, ghost, from, earlier) {
            law_settled_grows(main, ghost, from + 1, earlier, later);
        } else {
            lemma_pending_after(main, ghost, from, later);
        }
    }
}

proof fn lemma_pending_after(main: Side, ghost: Side, from: int, t: int)
    requires
        0 <= from,
    ensures
        from <= first_pending(main, ghost, from, t),
    decreases shared(main, ghost) - from,
{
    if from < shared(main, ghost) && answered(main, ghost, from, t) {
        lemma_pending_after(main, ghost, from + 1, t);
    }
}

/// A sample without a lead is no lead change.
pub proof fn law_no_change_without_a_lead(samples: Seq<RaceSample>, n: nat)
    requires
        0 < n <= samples.len(),
        samples[n - 1].score_delta == 0,
    ensures
        changes(samples, n) == changes(samples, (n - 1) as nat),
{
}

/// Swapping the sides mirrors a race: the same notes are settled, the gap turns its sign, the two
/// accuracies change places, and the lead bar points the other way.
pub proof fn law_swapping_the_sides_mirrors_the_race(a: Side, b: Side, t: int)
    requires
        a.results.len() <= NOTE_LIMIT,
        b.results.len() <= NOTE_LIMIT,
    ensures
        first_pending(a, b, 0, t) == first_pending(b, a, 0, t),
        sample_at(b, a, t).score_delta == -sample_at(a, b, t).score_delta,
        sample_at(b, a, t).acc[0] == sample_at(a, b, t).acc[1],
        sample_at(b, a, t).acc[1] == sample_at(a, b, t).acc[0],
        forall|gap: int, score: int, resolved: int| #[trigger]
            bar_fill(-gap, score, resolved) == -bar_fill(gap, score, resolved),
{
    lemma_pending_either_way(a, b, 0, t);
    crate::hud::law_score_is_bounded(a.results, a.notes, until_freeze(t, a.end), a.results.len());
    crate::hud::law_score_is_bounded(b.results, b.notes, until_freeze(t, b.end), b.results.len());
    assert forall|gap: int, score: int, resolved: int| #[trigger]
        bar_fill(-gap, score, resolved) == -bar_fill(gap, score, resolved) by {
        if resolved >= 20 && score > 0 {
            crate::fixed::lemma_nearest_bound(2 * ONE * gap, score);
            assert(2 * ONE * (-gap) == -(2 * ONE * gap)) by (nonlinear_arith);
            assert(nearest(-(2 * ONE * gap), score) == -nearest(2 * ONE * gap, score)) by {
                if gap == 0 {
                    crate::fixed::lemma_nearest_bound(0, score);
                }
            }
        }
    }
}

proof fn lemma_pending_either_way(a: Side, b: Side, from: int, t: int)
    ensures
        first_pending(a, b, from, t) == first_pending(b, a, from, t),
    decreases shared(a, b) - from,
{
    assert(shared(a, b) == shared(b, a));
    if 0 <= from < shared(a, b) && answered(a, b, from, t) {
        lemma_pending_either_way(a, b, from + 1, t);
    }
}

/// Swapping the sides keeps the times at which the lead changes.
pub proof fn law_swapping_the_sides_keeps_the_lead_changes(
    p: Seq<RaceSample>,
    q: Seq<RaceSample>,
    n: nat,
)
    requires
        forall|i: int|
            #![trigger p[i]]
            #![trigger q[i]]
            0 <= i < n ==> p[i].score_delta == -q[i].score_delta && p[i].t_ms == q[i].t_ms,
    ensures
        changes(p, n) == changes(q, n),
        last_leader(p, n) == -last_leader(q, n),
    decreases n,
{
    if n > 0 {
        law_swapping_the_sides_keeps_the_lead_changes(p, q, (n - 1) as nat);
        assert(p[n - 1].score_delta == -q[n - 1].score_delta);
    }
}

/// The lead bar never runs over, never points to the side that is behind, and is full at a lead
/// of half the leader's score.
pub proof fn law_lead_bar_is_true(delta: int, leader_score: int, resolved: int)
    requires
        leader_score > 0,
        resolved >= 20,
    ensures
        -ONE <= bar_fill(delta, leader_score, resolved) <= ONE,
        delta >= 0 ==> bar_fill(delta, leader_score, resolved) >= 0,
        delta <= 0 ==> bar_fill(delta, leader_score, resolved) <= 0,
        2 * delta >= leader_score ==> bar_fill(delta, leader_score, resolved) == ONE,
{
    let n = 2 * ONE * delta;
    let d = leader_score;
    let q = nearest(n, d);
    assert(delta >= 0 ==> q >= 0) by (nonlinear_arith)
        requires
            q == nearest(n, d),
            n == 2_000_000 * delta,
            d > 0,
    ;
    assert(delta <= 0 ==> q <= 0) by (nonlinear_arith)
        requires
            q == nearest(n, d),
            n == 2_000_000 * delta,
            d > 0,
    ;
    assert(2 * delta >= d ==> q >= 1_000_000) by (nonlinear_arith)
        requires
            q == nearest(n, d),
            n == 2_000_000 * delta,
            d > 0,
    ;
}

proof fn lemma_tally_is_the_run(side: Side, t: int, n: nat)
    requires
        n <= side.results.len(),
        crate::hud::all_known(side.results, side.notes, t, n),
        forall|i: int| 0 <= i < n ==> (#[trigger] side.results[i]).note_index == i,
        forall|i: int| 0 <= i < n ==> !frozen(#[trigger] side.notes[i], side.end),
    ensures
        ({
            let run = run_after(side.results, side.notes, t, n);
            tallied(side, n) == (run.combo, 100 * run.weight)
        }),
    decreases n,
{
    if n > 0 {
        assert(crate::hud::all_known(side.results, side.notes, t, (n - 1) as nat));
        lemma_tally_is_the_run(side, t, (n - 1) as nat);
        assert(side.results[n - 1].note_index == n - 1);
        assert(!frozen(side.notes[n - 1], side.end));
    }
}

/// A settled race shows what both screens show: where all shared notes are known on both sides and
/// neither is frozen, the score of a side is the one that its own overlay shows, and so is its
/// streak.
pub proof fn law_settled_scores_are_those_on_screen(side: Side, t: int, n: nat)
    requires
        n <= side.results.len(),
        crate::hud::all_known(side.results, side.notes, t, n),
        forall|i: int| 0 <= i < n ==> (#[trigger] side.results[i]).note_index == i,
        forall|i: int| 0 <= i < n ==> !frozen(#[trigger] side.notes[i], side.end),
    ensures
        tallied(side, n).0 == run_after(side.results, side.notes, t, n).combo,
        tallied(side, n).1 == 100 * run_after(side.results, side.notes, t, n).weight,
{
    lemma_tally_is_the_run(side, t, n);
}

/// A note adds to a side's score a hundred points times the streak that it makes where it was hit,
/// and nothing where it was missed: the next hit after a miss adds a hundred. Once a side is frozen
/// it gains nothing more.
pub proof fn law_a_miss_breaks_the_streak(side: Side, n: nat)
    requires
        n < side.results.len(),
    ensures
        ({
            let before = tallied(side, n);
            let after = tallied(side, n + 1);
            let hit = side.results[n as int].hit;
            let over = side.end is Some && side.notes[n as int].time_ms * 1_000_000 + 80_000_000
                >= side.end->0;
            &&& over ==> after == before
            &&& !over && !hit ==> after.1 == before.1
            &&& !over && !hit && n + 1 < side.results.len() && side.results[n as int + 1].hit && !frozen(
                side.notes[n as int + 1],
                side.end,
            ) ==> tallied(side, n + 2).1 == before.1 + 100
            &&& !over && hit ==> after.1 == before.1 + 100 * after.0 && after.0 == before.0 + 1
            &&& before.0 >= 0 && before.1 >= 0
        }),
{
    lemma_tallied_bound(side, n);
}

/// A race stops at the first note that one of the sides has not answered: all notes before it are
/// answered by both, and it is not.
pub proof fn law_races_wait_for_both_sides(main: Side, ghost: Side, t: int)
    requires
        t >= 0,
    ensures
        ({
            let n = first_pending(main, ghost, 0, t);
            &&& 0 <= n <= main.results.len() && n <= ghost.results.len()
            &&& forall|i: int|
                0 <= i < n ==> #[trigger] known_at(main.notes[i], main.results[i], main.end) <= t
                    && known_at(ghost.notes[i], ghost.results[i], ghost.end) <= t
            &&& n < shared(main, ghost) ==> known_at(main.notes[n], main.results[n], main.end) > t
                || known_at(ghost.notes[n], ghost.results[n], ghost.end) > t
        }),
{
    lemma_first_pending(main, ghost, 0, t);
}

proof fn lemma_first_pending(main: Side, ghost: Side, from: int, t: int)
    requires
        0 <= from <= shared(main, ghost),
    ensures
        ({
            let n = first_pending(main, ghost, from, t);
            &&& from <= n <= shared(main, ghost)
            &&& forall|i: int| from <= i < n ==> #[trigger] answered(main, ghost, i, t)
            &&& forall|i: int|
                from <= i < n ==> #[trigger] known_at(main.notes[i], main.results[i], main.end) <= t
                    && known_at(ghost.notes[i], ghost.results[i], ghost.end) <= t
            &&& n < shared(main, ghost) ==> !answered(main, ghost, n, t)
        }),
    decreases shared(main, ghost) - from,
{
    if from < shared(main, ghost) && answered(main, ghost, from, t) {
        lemma_first_pending(main, ghost, from + 1, t);
    }
}

/// A note is known when its hit lands, a miss when its window is over, and on a frozen side with
/// the freeze: a millisecond after the window of the fail time.
pub proof fn law_notes_are_known_when_they_are_over(note: Note, r: NoteResult, replay: Replay)
    ensures
        !replay.failed && r.hit_ms is Some ==> known_at(note, r, freeze(replay)) == r.hit_ms->0,
        !replay.failed && r.hit_ms is None ==> known_at(note, r, freeze(replay)) == (note.time_ms
            + 80) * 1_000_000,
        replay.failed && note.time_ms > replay.fail_time_ms ==> known_at(note, r, freeze(replay))
            == (replay.fail_time_ms + 81) * 1_000_000,
        replay.failed && note.time_ms <= replay.fail_time_ms ==> known_at(note, r, freeze(replay))
            == known_at(note, r, None),
{
}

/// The lead changes hands where a gap of one sign follows the last one of the other sign, and only
/// there: what lies in between is neutral.
pub proof fn law_lead_changes_are_sign_changes(samples: Seq<RaceSample>, i: int, j: int)
    requires
        0 <= i < j < samples.len(),
        samples[i].score_delta != 0,
        samples[j].score_delta != 0,
        forall|k: int| i < k < j ==> (#[trigger] samples[k]).score_delta == 0,
    ensures
        ({
            let before = changes(samples, j as nat);
            let turned = (samples[i].score_delta > 0) != (samples[j].score_delta > 0);
            &&& turned ==> changes(samples, (j + 1) as nat) == before.push(samples[j].t_ms)
            &&& !turned ==> changes(samples, (j + 1) as nat) == before
        }),
{
    lemma_last_leader(samples, i, j as nat);
}

proof fn lemma_last_leader(samples: Seq<RaceSample>, i: int, n: nat)
    requires
        0 <= i < n <= samples.len(),
        samples[i].score_delta != 0,
        forall|k: int| i < k < n ==> (#[trigger] samples[k]).score_delta == 0,
    ensures
        last_leader(samples, n) == if samples[i].score_delta > 0 {
            1int
        } else {
            -1
        },
    decreases n,
{
    if i < n - 1 {
        assert(samples[n - 1].score_delta == 0);
        lemma_last_leader(samples, i, (n - 1) as nat);
    }
}

/// A sample of a race is the difference of the two overlays at its time, each no later than its own
/// freeze.
pub proof fn law_samples_show_both_screens(main: Side, ghost: Side, t: i64)
    requires
        main.results.len() <= NOTE_LIMIT,
        ghost.results.len() <= NOTE_LIMIT,
    ensures
        ({
            let s = sample_at(main, ghost, t as int);
            let at = |side: Side|
                if side.end is Some && side.end->0 < t {
                    side.end->0
                } else {
                    t as int
                };
            let m = run_after(main.results, main.notes, at(main), main.results.len());
            let g = run_after(ghost.results, ghost.notes, at(ghost), ghost.results.len());
            &&& s.t_ms == t
            &&& s.score_delta == 100 * m.weight - 100 * g.weight
            &&& s.acc[0] == live_accuracy(m.hits, m.misses)
            &&& s.acc[1] == live_accuracy(g.hits, g.misses)
        }),
{
    let (tm, tg) = (until_freeze(t as int, main.end), until_freeze(t as int, ghost.end));
    crate::hud::law_score_is_bounded(main.results, main.notes, tm, main.results.len());
    crate::hud::law_score_is_bounded(ghost.results, ghost.notes, tg, ghost.results.len());
    let m = run_after(main.results, main.notes, tm, main.results.len());
    let g = run_after(ghost.results, ghost.notes, tg, ghost.results.len());
    crate::hud::lemma_run_counts(main.results, main.notes, tm, main.results.len());
    crate::hud::lemma_run_counts(ghost.results, ghost.notes, tg, ghost.results.len());
    crate::hud::law_accuracy_is_the_share_of_hits(m.hits, m.misses);
    crate::hud::law_accuracy_is_the_share_of_hits(g.hits, g.misses);
}

/// The lead bar fills evenly with the lead and is full at half of the leader's score; it stays empty
/// over the first 20 notes and without a score.
pub proof fn law_the_lead_bar_fills_evenly(delta: int, leader_score: int, resolved: int)
    requires
        leader_score > 0,
    ensures
        resolved < 20 ==> bar_fill(delta, leader_score, resolved) == 0,
        bar_fill(delta, 0, resolved) == 0,
        resolved >= 20 && 2 * magnitude(delta) <= leader_score ==> 2 * magnitude(
            leader_score * bar_fill(delta, leader_score, resolved) - 2_000_000 * delta,
        ) <= leader_score,
        resolved >= 20 && -2 * delta >= leader_score ==> bar_fill(delta, leader_score, resolved)
            == -1_000_000,
{
    let n = 2_000_000 * delta;
    law_rounding_is_closest(n, leader_score);
    law_rounding_keeps_whole_numbers(1_000_000, 0, leader_score);
    law_rounding_keeps_whole_numbers(-1_000_000, 0, leader_score);
    if 2 * delta <= leader_score {
        law_rounding_is_monotone(n, leader_score * 1_000_000, leader_score);
    }
    if -2 * delta <= leader_score {
        law_rounding_is_monotone(leader_score * (-1_000_000), n, leader_score);
    }
    if -2 * delta >= leader_score {
        law_rounding_is_monotone(n, leader_score * (-1_000_000), leader_score);
    }
}

/// The line of an even race divides the graph as the greatest leads of the two sides do, but leaves
/// each side no less than 12 percent.
pub proof fn law_the_even_line_divides_by_the_leads(pos: int, neg: int)
    requires
        pos >= 0,
        neg >= 0,
    ensures
        zero_share(0, 0) == 500_000,
        120_000 <= zero_share(pos, neg) <= 880_000,
        pos > 0 ==> zero_share(pos, 0) == 880_000,
        neg > 0 ==> zero_share(0, neg) == 120_000,
        magnitude(zero_share(pos, neg) + zero_share(neg, pos) - 1_000_000) <= 1,
        pos + neg > 0 && 120_000 < zero_share(pos, neg) < 880_000 ==> 2 * magnitude(
            (pos + neg) * zero_share(pos, neg) - 1_000_000 * pos,
        ) <= pos + neg,
{
    let s = pos + neg;
    if s > 0 {
        law_rounding_is_closest(1_000_000 * pos, s);
        law_rounding_is_closest(1_000_000 * neg, s);
        let (a, b) = (nearest(1_000_000 * pos, s), nearest(1_000_000 * neg, s));
        assert(magnitude(a + b - 1_000_000) <= 1) by (nonlinear_arith)
            requires
                2 * magnitude(s * a - 1_000_000 * pos) <= s,
                2 * magnitude(s * b - 1_000_000 * neg) <= s,
                s == pos + neg,
                s > 0,
        ;
    }
    if pos > 0 {
        law_rounding_keeps_whole_numbers(1_000_000, 0, pos);
        assert(1_000_000 * pos == pos * 1_000_000);
    }
    if neg > 0 {
        law_rounding_keeps_whole_numbers(0, 0, neg);
        assert(neg * 0 == 0);
    }
}

/// Samples are taken at even distances.
pub proof fn law_samples_are_even(start: int, end: int, i: int, n: int)
    requires
        n >= 2,
        0 <= i < n,
    ensures
        2 * magnitude((n - 1) * (sample_time(start, end, i, n) - start) - (end - start) * i) <= n
            - 1,
{
    law_rounding_is_closest((end - start) * i, n - 1);
}

/// The race stops only at a note that a side does not have or that is still open on one of them.
pub proof fn law_races_go_on_while_both_are_known(main: Side, ghost: Side, t: int)
    requires
        t >= 0,
    ensures
        ({
            let n = first_pending(main, ghost, 0, t);
            n < main.results.len() && n < ghost.results.len() && n < main.notes.len() && n
                < ghost.notes.len() ==> known_at(main.notes[n], main.results[n], main.end) > t
                || known_at(ghost.notes[n], ghost.results[n], ghost.end) > t
        }),
{
    law_races_wait_for_both_sides(main, ghost, t);
}

} // verus!
