use rhythr::analysis::{analyze, Analysis};
use rhythr::fixed::ONE;
use rhythr::hitreg::DEFAULT_WINDOW_MS;
use rhythr::motion::{cursor_distance, place_at};
use rhythr::replay::{Beatmap, Frame, MapMeta, Note, Replay};
use rhythr::stats::std_dev;
use rhythr::trend::slope;

fn micro(v: f64) -> i64 {
    (v * 1e6).round() as i64
}

fn plain(v: i128) -> f64 {
    v as f64 / 1e6
}

fn frame(ms: f64, x: f32, y: f32, hit: bool) -> Frame {
    Frame { ms: micro(ms), x: micro(x as f64), y: micro(y as f64), health: ONE, hit }
}

fn note(time_ms: i64, x: f64, y: f64) -> Note {
    Note { time_ms, x: micro(x), y: micro(y) }
}

fn test_map(notes: Vec<Note>) -> Beatmap {
    Beatmap {
        meta: MapMeta {
            online_id: None,
            legacy_id: String::new(),
            song_name: String::new(),
            difficulty: 0,
            custom_difficulty_name: String::new(),
            mappers: Vec::new(),
            duration_ms: 0,
        },
        notes,
    }
}

/// Header stats follow from the frames and notes, so that the header check passes.
fn replay_for(frames: Vec<Frame>, note_count: usize) -> Replay {
    let hits = frames.iter().filter(|f| f.hit).count() as i32;
    let misses = note_count as i32 - hits;
    let accuracy_pct =
        if note_count > 0 { hits as f32 / note_count as f32 * 100.0 } else { 100.0 };
    Replay {
        timestamp_ticks: 0,
        player_name: "Test".to_string(),
        legacy_map_id: String::new(),
        map_id: 0,
        start_from_ms: 0,
        failed: false,
        mods: "[]".to_string(),
        speed: ONE,
        total_score: 0,
        accuracy_pct: micro(accuracy_pct as f64),
        hits,
        misses,
        points: 0,
        fail_time_ms: -1,
        length_ms: 0,
        frames,
        trailing_bytes: 0,
    }
}

fn test_replay(frames: Vec<Frame>) -> Replay {
    replay_for(frames, 0)
}

fn study(map: &Beatmap, replay: &Replay) -> Analysis {
    analyze(map, replay, DEFAULT_WINDOW_MS)
}

fn straight_move() -> Vec<Frame> {
    (0..=60)
        .map(|i| frame(i as f64 * 16.0, -1.0 + i as f32 * (2.0 / 60.0), 0.0, false))
        .collect()
}

#[test]
fn speed_and_path_length() {
    let a = study(&test_map(vec![]), &test_replay(straight_move()));
    assert!((plain(a.cursor.total_path_cells) - 2.0).abs() < 0.01, "{}", a.cursor.total_path_cells);
    let expect_v = 2.0 / (60.0 * 16.0 / 1000.0);
    assert!((plain(a.cursor.max_speed.v) - expect_v).abs() < 0.15, "{}", a.cursor.max_speed.v);
    assert!(plain(a.cursor.moving_pct) > 95.0);
}

#[test]
fn speed_mod_scales_wall_clock() {
    let mut r = test_replay(straight_move());
    r.speed = 2 * ONE;
    let a = study(&test_map(vec![]), &r);
    let expect_v = 2.0 * 2.0 / (60.0 * 16.0 / 1000.0);
    assert!((plain(a.cursor.max_speed.v) - expect_v).abs() < 0.3);
}

#[test]
fn pause_gap_excluded() {
    let mut frames = vec![frame(0.0, -1.0, 0.0, false), frame(16.0, -1.0, 0.0, false)];
    frames.push(frame(5016.0, 1.0, 0.0, false));
    frames.push(frame(5032.0, 1.0, 0.0, false));
    let a = study(&test_map(vec![]), &test_replay(frames));
    assert!(plain(a.cursor.total_path_cells) < 0.01, "{}", a.cursor.total_path_cells);
    assert!(a.signals.iter().all(|s| s.id != "teleport"));
}

#[test]
fn teleport_flagged() {
    let mut frames: Vec<Frame> =
        (0..30).map(|i| frame(i as f64 * 16.0, 0.0, 0.0, false)).collect();
    frames.push(frame(480.0, 2.0, 0.0, false));
    frames.push(frame(496.0, 2.0, 0.0, false));
    let a = study(&test_map(vec![]), &test_replay(frames));
    assert!(a.signals.iter().any(|s| s.id == "teleport"));
    assert_ne!(a.verdict, "clean");
}

#[test]
fn timing_ur_and_mean() {
    let notes = vec![note(500, 1.0, 1.0), note(1000, 1.0, 1.0), note(1500, 1.0, 1.0)];
    let mut frames: Vec<Frame> =
        (0..125).map(|i| frame(i as f64 * 16.0, 0.0, 0.0, false)).collect();
    frames.push(frame(510.0, 0.0, 0.0, true));
    frames.push(frame(1010.0, 0.0, 0.0, true));
    frames.push(frame(1510.0, 0.0, 0.0, true));
    frames.sort_by_key(|f| f.ms);
    let n = notes.len();
    let a = study(&test_map(notes), &replay_for(frames, n));
    assert_eq!(a.meta.hits, 3);
    assert!((plain(a.timing.mean_err_ms) - 10.0).abs() < 0.5, "{}", a.timing.mean_err_ms);
    assert!(plain(a.timing.ur) < 1.0, "{}", a.timing.ur);
}

#[test]
fn near_miss_distance() {
    let notes = vec![note(500, 1.0, 1.0), note(1000, 2.0, 1.0)];
    let mut frames: Vec<Frame> =
        (0..80).map(|i| frame(i as f64 * 16.0, 0.0, 0.0, false)).collect();
    frames.push(frame(500.0, 0.0, 0.0, true));
    frames.sort_by_key(|f| f.ms);
    let n = notes.len();
    let a = study(&test_map(notes), &replay_for(frames, n));
    assert!(a.notes[0].hit);
    assert!(a.notes[0].dist.unwrap().abs() < micro(0.01));
    assert!(!a.notes[1].hit);
    let nd = a.notes[1].near_dist.unwrap();
    assert!((nd - ONE).abs() < micro(0.05), "{nd}");
    assert_eq!(a.misses.count, 1);
}

#[test]
fn movement_efficiency() {
    let notes = vec![note(100, 0.0, 1.0), note(1900, 2.0, 1.0)];
    let mut frames = Vec::new();
    let mut t = 0.0;
    for (from, to) in [(-1.0, 1.0), (1.0, 0.0), (0.0, 1.0f32)] {
        for i in 0..40 {
            let k = i as f32 / 40.0;
            frames.push(frame(t, from + (to - from) * k, 0.0, false));
            t += 16.0;
        }
    }
    let n = notes.len();
    let a = study(&test_map(notes), &replay_for(frames, n));
    assert!((plain(a.cursor.total_path_cells) - 4.0).abs() < 0.1, "{}", a.cursor.total_path_cells);
    assert!((plain(a.cursor.optimal_path_cells) - 2.0).abs() < 0.01);
    assert!((plain(a.cursor.efficiency_pct) - 50.0).abs() < 3.0, "{}", a.cursor.efficiency_pct);
}

#[test]
fn too_smooth_is_info_only() {
    let frames: Vec<Frame> = (0..500)
        .map(|i| {
            let c = i % 200;
            let k = if c < 100 { c } else { 200 - c } as f32 / 100.0;
            frame(i as f64 * 16.0, -1.0 + 2.0 * k, 0.0, false)
        })
        .collect();
    let a = study(&test_map(vec![]), &test_replay(frames));
    let s = a.signals.iter().find(|s| s.id == "smooth");
    assert!(s.is_some());
    assert_eq!(s.unwrap().severity, "info");
    assert_eq!(a.verdict, "clean");
}

#[test]
fn sections_split() {
    let mut notes = Vec::new();
    for i in 0..10 {
        notes.push(note(1000 + i * 2000, 1.0, 1.0));
    }
    for i in 0..10 {
        notes.push(note(31000 + i * 2000, 1.0, 1.0));
    }
    let mut frames: Vec<Frame> =
        (0..3200).map(|i| frame(i as f64 * 16.0, 0.0, 0.0, false)).collect();
    for i in 0..10 {
        frames.push(frame((1000 + i * 2000) as f64, 0.0, 0.0, true));
    }
    frames.sort_by_key(|f| f.ms);
    let n = notes.len();
    let a = study(&test_map(notes), &replay_for(frames, n));
    assert!(a.sections.len() >= 2);
    assert!(plain(a.sections[0].acc_pct) > 99.0);
    assert!(plain(a.sections[1].acc_pct) < 1.0);
}

#[test]
fn teleport_detected_under_speed_mod() {
    let mut frames: Vec<Frame> =
        (0..30).map(|i| frame(i as f64 * 33.4, 0.0, 0.0, false)).collect();
    frames.push(frame(1002.0, 2.0, 0.0, false));
    frames.push(frame(1035.4, 2.0, 0.0, false));
    let mut r = test_replay(frames);
    r.speed = 2 * ONE;
    let a = study(&test_map(vec![]), &r);
    assert!(a.signals.iter().any(|s| s.id == "teleport"));
}

#[test]
fn failed_run_ignores_post_fail_notes() {
    let notes = vec![
        note(500, 1.0, 1.0),
        note(1000, 1.0, 1.0),
        note(5000, 1.0, 1.0),
        note(6000, 1.0, 1.0),
    ];
    let mut frames: Vec<Frame> =
        (0..80).map(|i| frame(i as f64 * 16.0, 0.0, 0.0, false)).collect();
    frames.push(frame(500.0, 0.0, 0.0, true));
    frames.push(frame(1000.0, 0.0, 0.0, true));
    frames.sort_by_key(|f| f.ms);
    let mut r = replay_for(frames, 2);
    r.failed = true;
    r.fail_time_ms = 1300;
    let a = study(&test_map(notes), &r);
    assert_eq!(a.meta.hits, 2);
    assert_eq!(a.meta.misses, 0, "post-fail notes are not misses");
    assert_eq!(a.notes.len(), 2);
}

#[test]
fn practice_run_skips_pre_start_notes() {
    let notes = vec![note(500, 1.0, 1.0), note(10_000, 1.0, 1.0)];
    let mut frames: Vec<Frame> =
        (0..40).map(|i| frame(9800.0 + i as f64 * 16.0, 0.0, 0.0, false)).collect();
    frames.push(frame(10_000.0, 0.0, 0.0, true));
    frames.sort_by_key(|f| f.ms);
    let mut r = replay_for(frames, 1);
    r.start_from_ms = 9000;
    let a = study(&test_map(notes), &r);
    assert_eq!(a.meta.hits, 1);
    assert_eq!(a.meta.misses, 0, "pre-start notes are not misses");
    assert_ne!(a.verdict, "warn", "practice runs must never hard-warn on header checks");
}

#[test]
fn ghost_cursor_distance() {
    let fa: Vec<Frame> = (0..100).map(|i| frame(i as f64 * 16.0, 0.0, 0.0, false)).collect();
    let fb: Vec<Frame> = (0..100).map(|i| frame(i as f64 * 16.0, 1.0, 0.0, false)).collect();
    let s = cursor_distance(&test_replay(fa), &test_replay(fb));
    assert!(!s.v.is_empty());
    assert!(s.v.iter().all(|v| (plain(*v) - 1.0).abs() < 0.01));
}

#[test]
fn an_empty_replay_has_an_analysis() {
    let a = study(&test_map(vec![]), &test_replay(vec![]));
    assert_eq!(a.meta.frame_count, 0);
    assert_eq!(a.cursor.avg_speed, 0);
    assert_eq!(a.timing.ur, 0);
    assert_eq!(a.misses.count, 0);
    assert!(a.sections.is_empty());
    assert_eq!(a.verdict, "clean");
}

#[test]
fn an_inflated_header_is_a_warning() {
    let notes = vec![note(500, 1.0, 1.0), note(1000, 1.0, 1.0)];
    let frames = vec![frame(500.0, 0.0, 0.0, true), frame(4000.0, 0.0, 0.0, true)];
    let r = replay_for(frames, 2);
    let a = study(&test_map(notes), &r);
    assert_eq!(a.verdict, "warn");
    assert!(a.signals.iter().any(|s| s.severity == "warn"));
}

#[test]
fn cursors_move_straight_between_frames() {
    let frames = vec![frame(0.0, 0.0, 0.0, false), frame(10.0, 1.0, 2.0, false)];
    assert_eq!(place_at(&frames, 5_000_000), (500_000, 1_000_000));
}

#[test]
fn misses_are_sorted_into_reasons() {
    let notes = vec![note(500, 1.0, 1.0), note(1000, 2.0, 1.0), note(1500, 0.0, 1.0)];
    let frames: Vec<Frame> =
        (0..150).map(|i| frame(i as f64 * 16.0, 0.0, 0.0, false)).collect();
    let a = study(&test_map(notes), &replay_for(frames, 3));
    let m = &a.misses;
    assert_eq!(m.count, 3);
    assert_eq!(m.count, m.on_fast_jumps + m.on_streams + m.other);
}

#[test]
fn drift_is_the_least_squares_slope() {
    let ms = |v: f64| micro(v) as i128;
    // Times that lie within a millisecond are not rounded together.
    let times = [0, 0, 0, 0, 1, 1, 1, 1];
    let errors: Vec<i128> = times.iter().map(|&t| t * 1_000_000).collect();
    assert_eq!(slope(&times, &errors), ms(60_000.0));
    let down: Vec<i128> = errors.iter().map(|e| -e).collect();
    assert_eq!(slope(&times, &down), -ms(60_000.0));
    // Fewer than eight hits, or one moment, show no trend.
    assert_eq!(slope(&times[..7], &errors[..7]), 0);
    assert_eq!(slope(&[5; 8], &errors), 0);
    // A line keeps its slope, wherever it lies.
    let far: Vec<i128> = (0..50).map(|i| 9_999_000_000 - 7 * i * i).collect();
    let line: Vec<i128> = far.iter().map(|t| 3 + 40 * (t - 9_999_000_000)).collect();
    assert_eq!(slope(&far, &line), 40 * 60_000);
    let scattered = [1, 2, 3, 4, 5, 6, 7, 9];
    // 8 * 227 - 37 * 38 over 8 * 221 - 37 * 37.
    assert_eq!(slope(&scattered, &[1, 3, 2, 5, 4, 7, 6, 10]), nearest_of(410 * 60_000, 399));
}

fn nearest_of(n: i128, d: i128) -> i128 {
    (2 * n + d) / (2 * d)
}

#[test]
fn spreads_are_taken_from_the_exact_mean() {
    assert_eq!(std_dev(&[0, 3]), 1);
    assert_eq!(std_dev(&[1_000, 1_003]), 1);
    assert_eq!(std_dev(&[0, 0, 0, 8]), 3);
    assert_eq!(std_dev(&[7; 9]), 0);
    assert_eq!(std_dev(&[5]), 0);
    // A variance of 35 / 16 whole ones.
    assert_eq!(std_dev(&[0, 1_000, 2_000, 4_000]), 1_479);
}
