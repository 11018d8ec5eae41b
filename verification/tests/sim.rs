use rhythr::fixed::ONE;
use rhythr::hitreg::{
    covers, match_hits, match_hits_timing_only, MatchOutcome, DEFAULT_WINDOW_MS,
};
use rhythr::integrity::{
    looks_like_the_wrong_map, verify, verify_replay, Check, IntegrityReport, Severity,
};
use rhythr::replay::{frames_fit, notes_fit, Beatmap, Frame, MapMeta, Note, Replay};
use rhythr::timebase::{normalize, scale_time, time_scale};

fn micro(v: f64) -> i64 {
    (v * 1e6).round() as i64
}

fn note(time_ms: i64) -> Note {
    Note { time_ms, x: 0, y: 0 }
}

fn at(time_ms: i64, x: f64, y: f64) -> Note {
    Note { time_ms, x: micro(x), y: micro(y) }
}

fn flag(ms: f64) -> Frame {
    Frame { ms: micro(ms), x: 0, y: 0, health: ONE, hit: true }
}

fn frame(ms: f64, x: f64, y: f64) -> Frame {
    Frame { ms: micro(ms), x: micro(x), y: micro(y), health: ONE, hit: true }
}

fn meta() -> MapMeta {
    MapMeta {
        online_id: None,
        legacy_id: String::new(),
        song_name: "song".to_string(),
        difficulty: 3,
        custom_difficulty_name: String::new(),
        mappers: Vec::new(),
        duration_ms: 10_000,
    }
}

fn map_with(times: &[i64]) -> Beatmap {
    Beatmap { meta: meta(), notes: times.iter().map(|&t| note(t)).collect() }
}

fn replay_with(speed: f64, hit_times: &[f64]) -> Replay {
    Replay {
        timestamp_ticks: 0,
        player_name: "t".to_string(),
        legacy_map_id: String::new(),
        map_id: 0,
        start_from_ms: 0,
        failed: false,
        mods: "[]".to_string(),
        speed: micro(speed),
        total_score: 0,
        accuracy_pct: micro(100.0),
        hits: hit_times.len() as i32,
        misses: 0,
        points: 0,
        fail_time_ms: -1,
        length_ms: hit_times.last().map(|&t| micro(t)).unwrap_or(0),
        frames: hit_times.iter().map(|&t| flag(t)).collect(),
        trailing_bytes: 0,
    }
}

#[test]
fn simple_hits_and_miss() {
    let notes = [note(1000), note(2000), note(3000)];
    let frames = [flag(1010.0), flag(3020.0)];
    let out = match_hits(&notes, &frames, DEFAULT_WINDOW_MS);
    assert!(out.results[0].hit);
    assert!(!out.results[1].hit);
    assert!(out.results[2].hit);
    assert_eq!(out.orphan_flags, 0);
    assert_eq!(out.derived_hits(), 2);
}

#[test]
fn dense_section_matches_in_order() {
    let notes = [note(1000), note(1050)];
    let frames = [flag(1010.0), flag(1055.0)];
    let out = match_hits(&notes, &frames, DEFAULT_WINDOW_MS);
    assert!(out.results[0].hit && out.results[1].hit);
    assert_eq!(out.results[0].hit_ms, Some(micro(1010.0)));
    assert_eq!(out.results[1].hit_ms, Some(micro(1055.0)));
    assert_eq!(out.orphan_flags, 0);
}

#[test]
fn single_flag_between_notes_takes_earliest() {
    let notes = [note(1000), note(1050)];
    let frames = [flag(1040.0)];
    let out = match_hits(&notes, &frames, DEFAULT_WINDOW_MS);
    assert!(out.results[0].hit);
    assert!(!out.results[1].hit);
    assert_eq!(out.derived_hits(), 1);
}

#[test]
fn out_of_window_flag_does_not_stall_matching() {
    let notes = [note(5000), note(6000)];
    let frames = [flag(1000.0), flag(5005.0), flag(6010.0)];
    let out = match_hits(&notes, &frames, DEFAULT_WINDOW_MS);
    assert_eq!(out.orphan_flags, 1);
    assert!(out.results[0].hit);
    assert!(out.results[1].hit);
}

#[test]
fn double_flag_for_one_note_leaves_an_orphan() {
    let notes = [note(1000)];
    let frames = [flag(995.0), flag(1005.0)];
    let out = match_hits(&notes, &frames, DEFAULT_WINDOW_MS);
    assert_eq!(out.derived_hits(), 1);
    assert_eq!(out.orphan_flags, 1);
}

#[test]
fn trailing_orphan_after_last_note() {
    let notes = [note(1000)];
    let frames = [flag(1005.0), flag(9999.0)];
    let out = match_hits(&notes, &frames, DEFAULT_WINDOW_MS);
    assert_eq!(out.derived_hits(), 1);
    assert_eq!(out.orphan_flags, 1);
}

#[test]
fn cursor_reattributes_swapped_double_note() {
    let notes = [at(1000, 0.0, 2.0), at(1005, 1.0, 2.0)];
    let frames = [frame(1004.0, 0.0, -1.0)];
    let out = match_hits(&notes, &frames, DEFAULT_WINDOW_MS);
    assert!(!out.results[0].hit, "cursor never covered note 0");
    assert!(out.results[1].hit, "cursor sat on note 1");
    assert_eq!(out.results[1].hit_ms, Some(micro(1004.0)));
    assert_eq!(out.derived_hits(), 1);
}

#[test]
fn ambiguous_cursor_keeps_earliest_attribution() {
    let notes = [at(1000, 0.0, 2.0), at(1005, 1.0, 2.0)];
    let frames = [frame(1004.0, -0.5, -1.0)];
    let out = match_hits(&notes, &frames, DEFAULT_WINDOW_MS);
    assert!(out.results[0].hit);
    assert!(!out.results[1].hit);
}

#[test]
fn future_note_cannot_steal_a_flag() {
    let notes = [at(1000, 0.0, 0.0), at(1075, 2.0, 0.0)];
    let frames = [frame(1000.0, 1.0, 1.0)];
    let out = match_hits(&notes, &frames, DEFAULT_WINDOW_MS);
    assert!(out.results[0].hit, "note 0 keeps its flag");
    assert!(!out.results[1].hit, "a note 75 ms in the future must not steal it");
}

#[test]
fn reattribution_never_changes_totals() {
    let notes = [at(1000, 0.0, 0.0), at(1010, 2.0, 0.0), at(1020, 1.0, 1.0)];
    let frames = [frame(1008.0, 1.0, 1.0), frame(1022.0, 0.0, 0.0)];
    let out = match_hits(&notes, &frames, DEFAULT_WINDOW_MS);
    assert_eq!(out.derived_hits(), 2);
    assert_eq!(out.orphan_flags, 0);
}

#[test]
fn totals_agree_with_and_without_the_cursor() {
    let notes = [at(1000, 0.0, 2.0), at(1005, 1.0, 2.0), at(1040, 2.0, 2.0)];
    let frames = [frame(1004.0, 0.0, -1.0), frame(1044.0, 1.0, -1.0)];
    let guided = match_hits(&notes, &frames, DEFAULT_WINDOW_MS);
    let timed = match_hits_timing_only(&notes, &frames, DEFAULT_WINDOW_MS);
    assert_eq!(guided.derived_hits(), timed.derived_hits());
    assert_eq!(guided.orphan_flags, timed.orphan_flags);
    assert!(timed.results[0].hit);
    assert!(!guided.results[0].hit);
}

#[test]
fn every_flag_is_a_hit_or_an_orphan() {
    let notes = [note(1000), note(1500), note(2000)];
    let frames = [flag(900.0), flag(1001.0), flag(1002.0), flag(2081.0), flag(2000.0)];
    let out = match_hits(&notes, &frames, DEFAULT_WINDOW_MS);
    assert_eq!(out.derived_hits() + out.orphan_flags, 5);
}

#[test]
fn the_window_is_inclusive() {
    let notes = [note(1000)];
    assert_eq!(match_hits(&notes, &[flag(1080.0)], DEFAULT_WINDOW_MS).derived_hits(), 1);
    assert_eq!(match_hits(&notes, &[flag(1080.000001)], DEFAULT_WINDOW_MS).derived_hits(), 0);
    assert_eq!(match_hits(&notes, &[flag(920.0)], DEFAULT_WINDOW_MS).derived_hits(), 1);
}

#[test]
fn hit_areas_reach_a_little_over_half_a_cell() {
    let n = at(0, 1.0, 1.0);
    assert!(covers(&frame(0.0, 0.56875, 0.0), &n));
    assert!(!covers(&frame(0.0, 0.568751, 0.0), &n));
}

fn report_with(checks: Vec<Check>, flagged: u32, derived_hits: u32, orphans: u32) -> IntegrityReport {
    IntegrityReport {
        flagged_frames: flagged,
        derived_hits,
        derived_misses: 0,
        attempted_notes: flagged,
        derived_accuracy_pct: 0,
        orphan_flags: orphans,
        checks,
    }
}

fn id_check(ok: bool) -> Check {
    Check {
        name: "map legacy id matches replay",
        severity: Severity::Warning,
        ok,
        expected: String::new(),
        actual: String::new(),
    }
}

#[test]
fn a_failed_id_check_alone_means_wrong_map() {
    let report = report_with(vec![id_check(false)], 471, 366, 105);
    assert!(looks_like_the_wrong_map(471, &report, false));
}

#[test]
fn a_passing_id_check_is_not_a_wrong_map() {
    let report = report_with(vec![id_check(true)], 471, 366, 105);
    assert!(!looks_like_the_wrong_map(471, &report, false));
}

#[test]
fn heuristic_still_catches_a_wrong_map_without_an_id_check() {
    let report = report_with(vec![], 100, 30, 5);
    assert!(looks_like_the_wrong_map(100, &report, false));
}

#[test]
fn a_hash_mismatch_is_always_a_wrong_map() {
    let report = report_with(vec![id_check(true)], 100, 100, 0);
    assert!(looks_like_the_wrong_map(100, &report, true));
    assert!(!looks_like_the_wrong_map(100, &report, false));
}

#[test]
fn an_honest_run_is_consistent() {
    let map = map_with(&[1000, 2000, 3000]);
    let mut replay = replay_with(1.0, &[1000.0, 2010.0, 3020.0]);
    replay.hits = 3;
    replay.misses = 0;
    let report = verify_replay(&replay, &map, DEFAULT_WINDOW_MS);
    assert_eq!(report.derived_hits, 3);
    assert_eq!(report.derived_misses, 0);
    assert_eq!(report.attempted_notes, 3);
    assert_eq!(report.derived_accuracy_pct, micro(100.0));
    assert!(report.consistent(), "{:?}", report.failed_checks());
}

#[test]
fn an_inflated_header_is_not_consistent() {
    let map = map_with(&[1000, 2000, 3000]);
    let mut replay = replay_with(1.0, &[1000.0, 2010.0]);
    replay.hits = 3;
    replay.misses = 0;
    let report = verify_replay(&replay, &map, DEFAULT_WINDOW_MS);
    assert!(!report.consistent());
    assert!(report.failed_checks().len() > 0);
    assert!(!looks_like_the_wrong_map(replay.hits, &report, false));
}

#[test]
fn a_failed_run_only_answers_for_notes_before_the_end() {
    let map = map_with(&[1000, 2000, 3000, 9000]);
    let mut replay = replay_with(1.0, &[1000.0]);
    replay.failed = true;
    replay.fail_time_ms = 3000;
    let outcome: MatchOutcome = match_hits(&map.notes, &replay.frames, DEFAULT_WINDOW_MS);
    let report = verify(&replay, &map, &outcome);
    assert_eq!(report.attempted_notes, 3);
    assert_eq!(report.derived_misses, 2);
    assert_eq!(report.derived_hits + report.derived_misses, report.attempted_notes);
}

/// Made-up runs over one map: a clean one, one with misses, and one that failed.
fn runs() -> Vec<(&'static str, Replay, Beatmap)> {
    let times: Vec<i64> = (1..=20).map(|i| i * 500).collect();
    let hits = |keep: fn(i64) -> bool| -> Vec<f64> {
        times.iter().filter(|&&t| keep(t)).map(|&t| t as f64 + 7.0).collect()
    };
    let mut clean = replay_with(1.0, &hits(|_| true));
    clean.misses = 0;
    let mut holes = replay_with(1.0, &hits(|t| t % 2000 != 0));
    holes.misses = 5;
    holes.accuracy_pct = micro(75.0);
    let mut failed = replay_with(1.0, &hits(|t| t <= 3000));
    failed.misses = 4;
    failed.failed = true;
    failed.fail_time_ms = 5000;
    failed.accuracy_pct = micro(60.0);
    failed.frames.push(Frame { ms: micro(5000.0), x: 0, y: 0, health: 0, hit: false });
    vec![
        ("clean", clean, map_with(&times)),
        ("holes", holes, map_with(&times)),
        ("failed", failed, map_with(&times)),
    ]
}

#[test]
fn real_replays_are_consistent() {
    for (file, replay, map) in runs() {
        let report = verify_replay(&replay, &map, DEFAULT_WINDOW_MS);
        assert!(report.consistent(), "{file} flagged inconsistent: {:?}", report.failed_checks());
        assert_eq!(report.derived_hits, replay.hits as u32, "{file} hits");
        assert_eq!(report.derived_misses, replay.misses as u32, "{file} misses");
        assert!(
            (report.derived_accuracy_pct - replay.accuracy_pct).abs() < micro(0.01),
            "{file} accuracy {} vs {}",
            report.derived_accuracy_pct,
            replay.accuracy_pct
        );
        assert_eq!(report.orphan_flags, 0, "{file} orphans");
    }
}

#[test]
fn tampered_header_is_detected() {
    for (file, mut replay, map) in runs() {
        replay.hits += 10;
        replay.misses = replay.misses.saturating_sub(10);
        replay.accuracy_pct = micro(100.0);
        let report = verify_replay(&replay, &map, DEFAULT_WINDOW_MS);
        assert!(!report.consistent(), "{file}: tampered header must be flagged");
    }
}

#[test]
fn fail_replays_use_fail_time_cutoff() {
    for (file, replay, map) in runs() {
        let report = verify_replay(&replay, &map, DEFAULT_WINDOW_MS);
        if replay.failed {
            assert!(
                (report.attempted_notes as usize) < map.notes.len(),
                "{file}: fail run must not count post-fail notes"
            );
        } else {
            assert_eq!(report.attempted_notes as usize, map.notes.len(), "{file}");
        }
        assert_eq!(
            report.attempted_notes,
            report.derived_hits + report.derived_misses,
            "{file} attempted = hits + misses"
        );
    }
}

#[test]
fn a_second_call_changes_nothing() {
    // Song time recovers more hits than the recorded times, and rescaling twice more still.
    let map = map_with(&[4000, 8000, 12_000, 16_000, 20_000]);
    let times = [1000.0, 2000.0, 3000.0, 4000.0, 5000.0, 6000.0, 8000.0];
    let mut r = replay_with(2.0, &times);
    let first = normalize(&mut r, &map);
    let after: Vec<i64> = r.frames.iter().map(|f| f.ms).collect();
    let (fail, start) = (r.fail_time_ms, r.start_from_ms);
    assert!(!normalize(&mut r, &map));
    assert_eq!(r.frames.iter().map(|f| f.ms).collect::<Vec<i64>>(), after);
    assert_eq!((r.fail_time_ms, r.start_from_ms), (fail, start));
    assert!(!first);
    assert_eq!(after, times.iter().map(|&t| micro(t)).collect::<Vec<i64>>());
}

#[test]
fn the_cursor_keeps_the_hit_times() {
    let notes = [at(1000, 0.0, 0.0), at(1000, 2.0, 2.0), at(2000, 1.0, 1.0)];
    let frames = [frame(1010.0, 1.0, -1.0), frame(2005.0, 0.0, 0.0)];
    let times = |out: &MatchOutcome| {
        let mut v: Vec<Option<i64>> = out.results.iter().map(|r| r.hit_ms).collect();
        v.sort();
        v
    };
    let guided = match_hits(&notes, &frames, DEFAULT_WINDOW_MS);
    let timed = match_hits_timing_only(&notes, &frames, DEFAULT_WINDOW_MS);
    assert_ne!(guided.results[0].hit, timed.results[0].hit);
    assert_eq!(times(&guided), times(&timed));
}

#[test]
fn song_time_replays_stay_untouched() {
    let map = map_with(&[1000, 2000, 3000]);
    let mut r = replay_with(1.45, &[1005.0, 2010.0, 2995.0]);
    assert_eq!(time_scale(&map, &r), ONE);
    assert!(!normalize(&mut r, &map));
    assert_eq!(r.frames[0].ms, micro(1005.0));
}

#[test]
fn wall_clock_replays_rescale_once() {
    let map = map_with(&[1450, 2900, 4350, 5800]);
    let mut r = replay_with(1.45, &[1000.0, 2000.0, 3000.0, 4000.0]);
    r.fail_time_ms = 4100;
    assert!((time_scale(&map, &r) - micro(1.45)).abs() < 100);
    assert!(normalize(&mut r, &map));
    assert!((r.frames[0].ms - micro(1450.0)).abs() < 10_000);
    assert!((r.fail_time_ms - 5945).abs() <= 1);
    assert!(!normalize(&mut r, &map));
    assert!((r.frames[3].ms - micro(5800.0)).abs() < 10_000);
}

#[test]
fn coincidental_matches_on_a_wrong_map_do_not_rescale() {
    let map = map_with(&[1450, 8000, 16000]);
    let mut r = replay_with(1.45, &[1010.0, 2000.0, 3000.0, 4000.0]);
    assert_eq!(time_scale(&map, &r), ONE);
    assert!(!normalize(&mut r, &map));
    assert_eq!(r.frames[0].ms, micro(1010.0));
}

#[test]
fn times_scale_to_the_nearest_millionth() {
    assert_eq!(scale_time(micro(1000.0), micro(1.45)), micro(1450.0));
    assert_eq!(scale_time(1, micro(1.5)), 2);
    assert_eq!(scale_time(-1, micro(1.5)), -2);
}

#[test]
fn ranges_are_told() {
    assert!(notes_fit(&[at(0, 1.0, 1.0)]));
    assert!(!notes_fit(&[Note { time_ms: 0, x: i64::MAX, y: 0 }]));
    assert!(frames_fit(&[flag(1.0)]));
    assert!(!frames_fit(&[Frame { ms: 0, x: 0, y: i64::MIN, health: 0, hit: false }]));
}
