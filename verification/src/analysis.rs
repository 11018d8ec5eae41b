//! The full analysis of a recorded play: movement, timing, misses, and signs of a tampered file.

use vstd::prelude::*;

use crate::count::{law_counts_are_complete, lemma_tally_same, tally};
use crate::fixed::{magnitude, ONE};
use crate::hitreg::{is_outcome, match_hits, MatchOutcome};
use crate::integrity::{is_report, verify, IntegrityReport};
use crate::motion::{kinematics, pace_of, segments, smooth, trackable, Kinematics, SPEED_LIMIT};
use crate::movement::{
    direction_bias, frame_deltas, heatmap, is_bias, is_deltas, is_heatmap, is_jitter, is_overshoot,
    is_snap_flow, jitter, overshoot, snap_flow, spacings, DirectionBias, FrameDeltas, Heatmap,
    Jitter, Overshoot, SnapFlow,
};
use crate::replay::{Beatmap, Frame, Replay};
use crate::signals::{
    all_signals, any_of, models, signals, verdict, verdict_of, Signal, SignalModel,
};
use crate::stats::{downsample, is_thinned, limited, Series};
use crate::study::{
    all_bounded, chartable, cursor_stats, is_cursor, is_notes, spikes, study_notes, CursorStats,
    NoteAnalysis, WINDOW_LIMIT,
};
use crate::timing::{
    errors, first_ms, hit_times, is_misses, is_sections, is_timing, last_ms, miss_summary,
    roll_rates, roll_times, rolling_ur, sections, timing, MissSummary, Section, Timing,
};

verus! {

/// The run in short.
#[derive(Debug, Clone, Copy)]
pub struct Meta {
    pub frame_count: usize,
    pub first_ms: i64,
    pub last_ms: i64,
    pub speed: i64,
    pub hits: u32,
    pub misses: u32,
}

/// The recorded cursor as parallel lists.
#[derive(Debug, Clone)]
pub struct FrameArrays {
    pub t: Vec<i64>,
    pub x: Vec<i64>,
    pub y: Vec<i64>,
}

/// Everything that a run shows.
#[derive(Debug, Clone)]
pub struct Analysis {
    pub meta: Meta,
    pub frames: FrameArrays,
    pub speed_series: Series,
    pub cursor: CursorStats,
    pub overshoot: Overshoot,
    pub direction_bias: DirectionBias,
    pub snap_flow: SnapFlow,
    pub jitter: Jitter,
    pub timing: Timing,
    pub rolling_ur: Series,
    pub notes: Vec<NoteAnalysis>,
    pub misses: MissSummary,
    pub sections: Vec<Section>,
    pub heatmap: Heatmap,
    pub frame_deltas: FrameDeltas,
    pub signals: Vec<Signal>,
    /// `clean`, `notice` or `warn`: the strongest severity among the signs.
    pub verdict: String,
}

/// The notes of a list that were hit.
pub open spec fn hit_fn(list: Seq<NoteAnalysis>) -> spec_fn(int) -> bool {
    |i: int| list[i].hit
}

/// Whether this is the run in short.
pub open spec fn is_meta(m: Meta, frames: Seq<Frame>, pace: int, list: Seq<NoteAnalysis>) -> bool {
    &&& m.frame_count == frames.len()
    &&& m.first_ms == first_ms(frames)
    &&& m.last_ms == last_ms(frames)
    &&& m.speed == pace
    &&& m.hits == tally(hit_fn(list), list.len())
    &&& m.misses == list.len() - tally(hit_fn(list), list.len())
}

/// Whether this is the recorded cursor.
pub open spec fn is_arrays(a: FrameArrays, frames: Seq<Frame>) -> bool {
    &&& a.t@ == Seq::new(frames.len(), |i: int| frames[i].ms)
    &&& a.x@ == Seq::new(frames.len(), |i: int| frames[i].x)
    &&& a.y@ == Seq::new(frames.len(), |i: int| frames[i].y)
}

/// The ends of the segments.
pub open spec fn speed_times(frames: Seq<Frame>) -> Seq<i64> {
    Seq::new(segments(frames), |i: int| frames[i + 1].ms)
}

/// The smoothed speeds of the segments.
pub open spec fn speed_values(frames: Seq<Frame>, pace: int) -> Seq<i128> {
    Seq::new(segments(frames), |i: int| smooth(frames, pace, i) as i128)
}

/// Whether this is everything that a run shows.
pub open spec fn is_analysis(a: Analysis, map: Beatmap, replay: Replay, window: int) -> bool {
    let frames = replay.frames@;
    let pace = pace_of(replay.speed);
    let list = a.notes@;
    &&& is_notes(list, map.notes@, replay, window)
    &&& is_meta(a.meta, frames, pace, list)
    &&& is_arrays(a.frames, frames)
    &&& is_thinned(a.speed_series, speed_times(frames), speed_values(frames, pace))
    &&& is_cursor(a.cursor, frames, pace, list)
    &&& is_overshoot(a.overshoot, frames, list)
    &&& is_bias(a.direction_bias, list)
    &&& is_snap_flow(a.snap_flow, frames, pace, list)
    &&& is_jitter(a.jitter, frames, pace)
    &&& is_timing(a.timing, frames, pace, list, window)
    &&& is_thinned(
        a.rolling_ur,
        roll_times(hit_times(list, list.len())),
        roll_rates(errors(list, list.len())),
    )
    &&& is_misses(a.misses, list)
    &&& is_sections(a.sections@, frames, pace, list)
    &&& is_heatmap(a.heatmap, frames)
    &&& is_deltas(a.frame_deltas, frames)
    &&& exists|outcome: MatchOutcome, report: IntegrityReport|
        {
            &&& is_outcome(outcome, map.notes@, frames, window, true)
            &&& #[trigger] is_report(report, replay, map, outcome)
            &&& models(a.signals@) == all_signals(
                report,
                replay,
                pace,
                spikes(frames, pace, segments(frames)),
                a.jitter.smooth_windows_pct as int,
                list,
                outcome.orphan_flags as int,
            )
        }
    &&& a.verdict@ == verdict_of(models(a.signals@))
}

fn summarize(frames: &[Frame], pace: i64, list: &[NoteAnalysis]) -> (m: Meta)
    requires
        list@.len() <= u32::MAX,
    ensures
        is_meta(m, frames@, pace as int, list@),
{
    let mut hits: u32 = 0;
    let n: usize = list.len();
    let mut i: usize = 0;
    while i < n
        invariant
            i <= n == list@.len() <= u32::MAX,
            hits == tally(hit_fn(list@), i as nat),
            hits <= i,
        decreases n - i,
    {
        if list[i].hit {
            hits = hits + 1;
        }
        i = i + 1;
    }
    let len: usize = frames.len();
    Meta {
        frame_count: len,
        first_ms: if len == 0 {
            0
        } else {
            frames[0].ms
        },
        last_ms: if len == 0 {
            0
        } else {
            frames[len - 1].ms
        },
        speed: pace,
        hits,
        misses: n as u32 - hits,
    }
}

fn unzip(frames: &[Frame]) -> (a: FrameArrays)
    ensures
        is_arrays(a, frames@),
{
    let mut t: Vec<i64> = Vec::new();
    let mut x: Vec<i64> = Vec::new();
    let mut y: Vec<i64> = Vec::new();
    let n: usize = frames.len();
    let mut i: usize = 0;
    while i < n
        invariant
            i <= n == frames@.len(),
            t@ == Seq::new(i as nat, |i: int| frames@[i].ms),
            x@ == Seq::new(i as nat, |i: int| frames@[i].x),
            y@ == Seq::new(i as nat, |i: int| frames@[i].y),
        decreases n - i,
    {
        t.push(frames[i].ms);
        x.push(frames[i].x);
        y.push(frames[i].y);
        i = i + 1;
    }
    FrameArrays { t, x, y }
}

/// Analyses a run against its map, which has the run's mods applied.
pub fn analyze(map: &Beatmap, replay: &Replay, window_ms: i64) -> (a: Analysis)
    requires
        chartable(map.notes@),
        trackable(replay.frames@),
        replay.speed <= SPEED_LIMIT,
        0 <= window_ms <= WINDOW_LIMIT,
    ensures
        is_analysis(a, *map, *replay, window_ms as int),
{
    let frames: &[Frame] = replay.frames.as_slice();
    let pace: i64 = if replay.speed > 0 {
        replay.speed
    } else {
        ONE
    };
    let k: Kinematics = kinematics(frames, pace);
    let outcome: MatchOutcome = match_hits(map.notes.as_slice(), frames, window_ms);
    let notes: Vec<NoteAnalysis> = study_notes(
        map.notes.as_slice(),
        replay,
        &k,
        pace,
        window_ms,
        &outcome,
    );
    assert(all_bounded(notes@));
    let (cursor, spiked) = cursor_stats(frames, &k, pace, notes.as_slice());
    let tremor: Jitter = jitter(frames, &k, pace);
    let spaced: Vec<i128> = spacings(frames, &k, pace);
    assert(limited(spaced@, 500_000_000)) by {
        assert forall|i: int| 0 <= i < spaced@.len() implies magnitude(
            #[trigger] spaced@[i] as int,
        ) <= 500_000_000 by {}
    }
    let report: IntegrityReport = verify(replay, map, &outcome);
    let found: Vec<Signal> = signals(
        &report,
        replay,
        &k,
        pace,
        spiked.as_slice(),
        tremor.smooth_windows_pct,
        notes.as_slice(),
        spaced.as_slice(),
        outcome.orphan_flags,
    );
    let judged: String = verdict(found.as_slice());
    proof {
        assert(k.smooth_t@ =~= speed_times(frames@));
        assert(k.smooth_v@ =~= speed_values(frames@, pace as int)) by {
            assert forall|i: int| 0 <= i < k.smooth_v@.len() implies #[trigger] k.smooth_v@[i]
                == speed_values(frames@, pace as int)[i] by {}
        }
    }
    Analysis {
        meta: summarize(frames, pace, notes.as_slice()),
        frames: unzip(frames),
        speed_series: downsample(k.smooth_t.as_slice(), k.smooth_v.as_slice()),
        cursor,
        overshoot: overshoot(frames, notes.as_slice()),
        direction_bias: direction_bias(notes.as_slice()),
        snap_flow: snap_flow(frames, &k, pace, notes.as_slice()),
        jitter: tremor,
        timing: timing(frames, &k, pace, notes.as_slice(), window_ms),
        rolling_ur: rolling_ur(notes.as_slice()),
        misses: miss_summary(notes.as_slice()),
        sections: sections(frames, &k, pace, notes.as_slice()),
        heatmap: heatmap(frames, &k, pace),
        frame_deltas: frame_deltas(frames, spaced.as_slice()),
        notes,
        signals: found,
        verdict: judged,
    }
}

/// Signs that are only context leave a run clean.
pub proof fn law_context_is_no_suspicion(list: Seq<SignalModel>)
    requires
        forall|i: int| 0 <= i < list.len() ==> (#[trigger] list[i]).severity == "info"@,
    ensures
        verdict_of(list) == "clean"@,
{
    reveal_strlit("info");
    reveal_strlit("warn");
    reveal_strlit("notice");
    assert("info"@.len() == 4 && "warn"@.len() == 4 && "notice"@.len() == 6);
    assert("info"@[0] != "warn"@[0]);
}

/// A practice run never gets more than a notice: of all signs only a mismatch of header and
/// frames can warn, and in a practice run it does not.
pub proof fn law_practice_never_warns(
    report: IntegrityReport,
    replay: Replay,
    pace: int,
    spiked: Seq<i64>,
    smooth_pct: int,
    list: Seq<NoteAnalysis>,
    orphans: int,
)
    requires
        replay.start_from_ms > 0,
    ensures
        verdict_of(all_signals(report, replay, pace, spiked, smooth_pct, list, orphans))
            != "warn"@,
{
    reveal_strlit("info");
    reveal_strlit("warn");
    reveal_strlit("notice");
    reveal_strlit("clean");
    let all = all_signals(report, replay, pace, spiked, smooth_pct, list, orphans);
    assert("info"@[0] != "warn"@[0]);
    assert("notice"@.len() != "warn"@.len());
    assert("clean"@.len() != "warn"@.len());
    assert forall|i: int| 0 <= i < all.len() implies (#[trigger] all[i]).severity == "notice"@
        || all[i].severity == "info"@ by {}
    assert(!any_of(all, "warn"@));
}

/// Notes that a run never came to count neither as hits nor as misses.
pub proof fn law_only_attempted_notes_count(a: Analysis, map: Beatmap, replay: Replay, window: int)
    requires
        is_analysis(a, map, replay, window),
    ensures
        a.meta.hits + a.meta.misses == a.notes@.len(),
        a.notes@.len() <= map.notes@.len(),
        forall|k: int|
            0 <= k < a.notes@.len() ==> {
                let note = map.notes@[(#[trigger] a.notes@[k]).i as int];
                &&& a.notes@[k].i < map.notes@.len()
                &&& replay.start_from_ms > 0 ==> note.time_ms >= replay.start_from_ms
                &&& replay.fail_time_ms >= 0 ==> note.time_ms * ONE <= replay.fail_time_ms * ONE
                    + window
            },
{
    let n = map.notes@.len();
    lemma_tried(map.notes@, replay.start_from_ms, replay.fail_time_ms, window, n);
    let ids = crate::study::tried_below(
        map.notes@,
        replay.start_from_ms,
        replay.fail_time_ms,
        window,
        n,
    );
    assert forall|k: int| 0 <= k < a.notes@.len() implies {
        let note = map.notes@[(#[trigger] a.notes@[k]).i as int];
        &&& a.notes@[k].i < map.notes@.len()
        &&& replay.start_from_ms > 0 ==> note.time_ms >= replay.start_from_ms
        &&& replay.fail_time_ms >= 0 ==> note.time_ms * ONE <= replay.fail_time_ms * ONE + window
    } by {
        assert(a.notes@[k].i == ids[k]);
    }
}

proof fn lemma_tried(
    notes: Seq<crate::replay::Note>,
    start: i32,
    fail: i32,
    window: int,
    n: nat,
)
    requires
        n <= notes.len(),
    ensures
        ({
            let ids = crate::study::tried_below(notes, start, fail, window, n);
            &&& ids.len() <= n
            &&& forall|k: int|
                0 <= k < ids.len() ==> 0 <= #[trigger] ids[k] < n && crate::study::tried(
                    notes[ids[k]],
                    start,
                    fail,
                    window,
                )
        }),
    decreases n,
{
    if n > 0 {
        lemma_tried(notes, start, fail, window, (n - 1) as nat);
    }
}

/// The head of an analysis counts the notes that were hit and those that were not, and names the
/// first frame, the last one and the speed of the run.
pub proof fn law_heads_count_hits_and_misses(m: Meta, frames: Seq<Frame>, pace: int, list: Seq<
    NoteAnalysis,
>)
    requires
        is_meta(m, frames, pace, list),
    ensures
        m.hits == tally(|i: int| list[i].hit, list.len()),
        m.misses == tally(|i: int| !list[i].hit, list.len()),
        m.frame_count == frames.len(),
        frames.len() > 0 ==> m.first_ms == frames[0].ms && m.last_ms == frames[frames.len() - 1].ms,
        m.speed == pace,
{
    let f = hit_fn(list);
    lemma_tally_same(f, |i: int| list[i].hit, list.len());
    law_counts_are_complete(f, list.len());
    lemma_tally_same(|i: int| !f(i), |i: int| !list[i].hit, list.len());
}

} // verus!
