use rhythr::calendar::{civil_date, format_ticks, UNIX_EPOCH_TICKS};
use rhythr::fixed::ONE;
use rhythr::hud::{health_at, live_rp, note_multiplier, Grade, HudState, RingState};
use rhythr::number::{is_number_text, parse_fixed, parse_i64};
use rhythr::replay::{Beatmap, Frame, MapMeta, Note, Replay};
use rhythr::stats::{downsample, mean, percentile, rank, std_dev, sum};
use rhythr::text::{
    chars_of, contains, decimal_text, ends_with, find_chars, lowercase, push_rounded, signed_text,
    split_lines, split_words, starts_with, text_of, trim,
};
use rhythr::words::{
    accuracy_words, card_cells, clock, difficulty_words, dot_color, grade_color, grade_letters,
    health_color, mapper_words, mods_row, mods_words, notes_words, percent_words, played_words,
    points_words, results_rows, speed_mark, thousands, title_words, SpeedMark,
};

fn micro(v: f64) -> i64 {
    (v * 1e6).round() as i64
}

#[test]
fn grade_thresholds_are_official() {
    let grade = |pct: f64| Grade::from_accuracy(micro(pct));
    assert_eq!(grade(100.0), Grade::SS);
    assert_eq!(grade(99.0), Grade::S);
    assert_eq!(grade(98.99), Grade::A);
    assert_eq!(grade(95.0), Grade::A);
    assert_eq!(grade(94.99), Grade::B);
    assert_eq!(grade(90.0), Grade::B);
    assert_eq!(grade(89.99), Grade::C);
    assert_eq!(grade(85.0), Grade::C);
    assert_eq!(grade(84.99), Grade::D);
    assert_eq!(grade(97.83), Grade::A);
    assert_eq!(grade(92.31), Grade::B);
}

/// Feeds hits 100 ms apart, and gives the ring and the time of the last one.
fn ring_after_hits(n: usize) -> (RingState, i64) {
    let mut r = RingState::new();
    let mut t = 0;
    for _ in 0..n {
        t += micro(100.0);
        r.on_hit(t);
    }
    (r, t)
}

#[test]
fn ring_gains_a_side_every_8_streak_hits_capped_at_octagon() {
    // The fill is counted in eighths.
    let shape = |n: usize| {
        let (r, t) = ring_after_hits(n);
        (r.sides_at(t), r.progress())
    };
    assert_eq!(shape(0), (3, 0));
    assert_eq!(shape(7), (3, 7));
    assert_eq!(shape(8), (4, 0));
    assert_eq!(shape(15), (4, 7));
    assert_eq!(shape(16), (5, 0));
    assert_eq!(shape(24), (6, 0));
    assert_eq!(shape(32), (7, 0));
    assert_eq!(shape(40), (8, 8));
    assert_eq!(shape(53), (8, 8));
    assert_eq!(shape(186), (8, 8));
}

#[test]
fn ring_drops_one_side_per_miss_and_holds_otherwise() {
    let (mut r, t) = ring_after_hits(35);
    let at = |ms: f64| t + micro(ms);
    assert_eq!(r.sides_at(t), 7);
    let fill = r.on_miss(at(10.0));
    assert_eq!(fill, 3);
    assert_eq!(r.sides_at(at(20.0)), 6);
    r.on_miss(at(400.0));
    assert_eq!(r.sides_at(at(410.0)), 5);
    assert_eq!(r.sides_at(at(60_000.0)), 5);
    r.on_hit(at(700.0));
    r.on_hit(at(800.0));
    assert_eq!(r.sides_at(at(810.0)), 5);
    r.on_miss(at(900.0));
    assert_eq!(r.sides_at(at(910.0)), 4);
    r.on_miss(at(1000.0));
    assert_eq!(r.sides_at(at(1010.0)), 3);
    r.on_miss(at(1100.0));
    assert_eq!(r.sides_at(at(1110.0)), 3);
    let mut now = at(1200.0);
    for _ in 0..24 {
        now += micro(100.0);
        r.on_hit(now);
    }
    assert_eq!((r.sides_at(now), r.progress()), (6, 0));
    for _ in 0..16 {
        now += micro(100.0);
        r.on_hit(now);
    }
    assert_eq!((r.sides_at(now), r.progress()), (8, 8));
}

#[test]
fn thousands_separates() {
    assert_eq!(thousands(0), "0");
    assert_eq!(thousands(999), "999");
    assert_eq!(thousands(143100), "143,100");
    assert_eq!(thousands(34084600), "34,084,600");
    assert_eq!(thousands(-2500), "-2,500");
}

#[test]
fn clock_is_mm_ss() {
    assert_eq!(clock(micro(0.0)), "00:00");
    assert_eq!(clock(micro(24_751.0)), "00:24");
    assert_eq!(clock(micro(443_000.0)), "07:23");
    assert_eq!(clock(micro(-5.0)), "00:00");
}

#[test]
fn score_weight_is_cumulative_combo() {
    let w: u64 = (1..=53).map(note_multiplier).sum();
    assert_eq!(w, 1431);
    assert_eq!((w * 100) as i64, 143_100);
}

#[test]
fn live_rp_tracks_accuracy_and_lands_on_the_final_value() {
    let rp = |f: f64, now: f64, end: f64| live_rp(micro(f), micro(now), micro(end));
    assert!((rp(78.0, 100.0, 100.0) - micro(78.0)).abs() < 1000);
    assert!((rp(20.0, 98.1775, 98.1775) - micro(20.0)).abs() < 1000);
    assert!(rp(20.0, 100.0, 98.0) > micro(20.0));
    assert_eq!(rp(20.0, 88.0, 98.0), 0);
    assert_eq!(rp(5.0, 95.0, 85.0), micro(5.0));
    // Half the way from 90% to the final accuracy earns an eighth.
    assert_eq!(rp(80.0, 95.0, 100.0), micro(10.0));
}

fn map_of(times: &[i64]) -> Beatmap {
    Beatmap {
        meta: MapMeta {
            online_id: None,
            legacy_id: String::new(),
            song_name: "Song".to_string(),
            difficulty: 3,
            custom_difficulty_name: String::new(),
            mappers: vec!["Ann".to_string(), "Bo".to_string()],
            duration_ms: 9000,
        },
        notes: times.iter().map(|&t| Note { time_ms: t, x: ONE, y: ONE }).collect(),
    }
}

fn replay_of(hit_times: &[f64]) -> Replay {
    Replay {
        timestamp_ticks: 0,
        player_name: "Cat".to_string(),
        legacy_map_id: String::new(),
        map_id: 0,
        start_from_ms: 0,
        failed: false,
        mods: "[]".to_string(),
        speed: ONE,
        total_score: 0,
        accuracy_pct: micro(100.0),
        hits: hit_times.len() as i32,
        misses: 0,
        points: 0,
        fail_time_ms: -1,
        length_ms: 0,
        frames: hit_times
            .iter()
            .map(|&t| Frame { ms: micro(t), x: 0, y: 0, health: ONE, hit: true })
            .collect(),
        trailing_bytes: 0,
    }
}

#[test]
fn stats_follow_the_run() {
    let map = map_of(&[1000, 2000, 3000, 4000]);
    let replay = replay_of(&[1005.0, 3005.0, 4005.0]);
    let state = HudState::new(&map, &replay);
    let end = state.stats_at(&map.notes, &replay, micro(9000.0));
    assert_eq!((end.hits, end.misses, end.combo, end.resolved), (3, 1, 2, 4));
    assert_eq!(end.score, 100 + 100 + 200);
    assert_eq!(end.accuracy_pct, micro(75.0));
    assert_eq!(end.grade, Grade::D);
    let early = state.stats_at(&map.notes, &replay, micro(1010.0));
    assert_eq!((early.hits, early.misses, early.combo, early.score), (1, 0, 1, 100));
    assert_eq!(early.ms_since_hit, Some(micro(5.0) as u128));
    assert_eq!(early.ms_since_miss, None);
    let before = state.stats_at(&map.notes, &replay, 0);
    assert_eq!((before.resolved, before.score, before.accuracy_pct), (0, 0, micro(100.0)));
}

#[test]
fn a_clean_run_scores_the_triangle_numbers() {
    let map = map_of(&[1000, 2000, 3000, 4000]);
    let replay = replay_of(&[1000.0, 2000.0, 3000.0, 4000.0]);
    let state = HudState::new(&map, &replay);
    let end = state.stats_at(&map.notes, &replay, micro(5000.0));
    assert_eq!(end.score, 1000);
    assert_eq!(end.grade, Grade::SS);
    assert_eq!(state.hits_until(micro(2500.0)).len(), 2);
    assert_eq!(state.results().len(), 4);
}

#[test]
fn misses_are_marked_for_half_a_second() {
    let map = map_of(&[1000, 2000]);
    let replay = replay_of(&[2000.0]);
    let state = HudState::new(&map, &replay);
    let marks = state.recent_misses(&map.notes, micro(1200.0));
    assert_eq!(marks.len(), 1);
    assert_eq!((marks[0].0, marks[0].1), (ONE, ONE));
    assert!(state.recent_misses(&map.notes, micro(1900.0)).is_empty());
    assert!(state.recent_misses(&map.notes, micro(900.0)).is_empty());
}

#[test]
fn health_runs_straight_between_frames() {
    let frames = vec![
        Frame { ms: 0, x: 0, y: 0, health: ONE, hit: false },
        Frame { ms: micro(10.0), x: 0, y: 0, health: 0, hit: false },
    ];
    assert_eq!(health_at(&frames, micro(0.0)), ONE);
    assert_eq!(health_at(&frames, micro(50.0)), 0);
    assert_eq!(health_at(&[], 0), ONE);
}

#[test]
fn grades_have_letters_and_colours() {
    assert_eq!(Grade::SS.label(), "SS");
    assert_eq!(Grade::D.label(), "D");
    assert_ne!(Grade::SS.color(), Grade::D.color());
    assert_eq!(grade_letters(true, Grade::A), "F");
    assert_eq!(grade_letters(false, Grade::A), "A");
    assert_ne!(grade_color(true, Grade::A), grade_color(false, Grade::A));
    assert_ne!(health_color(0), health_color(ONE));
}

#[test]
fn lines_of_text_say_what_was_played() {
    let map = map_of(&[1000, 2000]);
    let replay = replay_of(&[1000.0]);
    let state = HudState::new(&map, &replay);
    let stats = state.stats_at(&map.notes, &replay, micro(5000.0));
    assert_eq!(percent_words(micro(97.5)), "97.5%");
    assert_eq!(percent_words(micro(100.0)), "100%");
    assert!(accuracy_words(&stats).contains("50"));
    assert!(points_words(&stats).contains('0'));
    assert_eq!(notes_words(&stats), "1/2");
    assert!(title_words("Cat", "Song").contains("Song"));
    assert!(!difficulty_words(&map.meta).is_empty());
    assert_eq!(mapper_words(&map.meta.mappers), "by Ann, Bo");
    assert!(played_words("Cat", UNIX_EPOCH_TICKS).contains("Cat"));
    assert_eq!(results_rows(&replay, &stats).len(), 5);
    assert_eq!(card_cells(&replay, &stats).len(), 3);
}

#[test]
fn speeds_are_marked() {
    assert_eq!(speed_mark(ONE), SpeedMark::Plain);
    assert_eq!(speed_mark(1_330_000), SpeedMark::Unranked);
    assert!(matches!(speed_mark(1_150_000), SpeedMark::Ranked { up: true, .. }));
    assert_ne!(dot_color(4, 0), dot_color(4, 3));
}

#[test]
fn mods_are_listed() {
    assert_eq!(mods_row("[]"), "");
    assert!(mods_row("[\"mod_mirror\"]").contains("mirror"));
    assert_eq!(mods_words("[]", false), None);
    assert_eq!(mods_words("[\"mod_mirror\"]", true), None);
}

#[test]
fn dates_follow_the_calendar() {
    assert_eq!(civil_date(0), (1970, 1, 1));
    assert_eq!(civil_date(-1), (1969, 12, 31));
    assert_eq!(civil_date(11_016), (2000, 2, 29));
    assert_eq!(civil_date(19_723), (2024, 1, 1));
    assert!(format_ticks(UNIX_EPOCH_TICKS).contains("1970"));
}

#[test]
fn numbers_are_read() {
    let fixed = |s: &str| parse_fixed(&chars_of(s));
    assert_eq!(parse_i64(&chars_of("-42")), Some(-42));
    assert_eq!(parse_i64(&chars_of("+7")), Some(7));
    assert_eq!(parse_i64(&chars_of("9223372036854775808")), None);
    assert_eq!(parse_i64(&chars_of("")), None);
    assert_eq!(fixed("1.5"), Some(1_500_000));
    assert_eq!(fixed("-0.25"), Some(-250_000));
    assert_eq!(fixed("2e3"), Some(2_000_000_000));
    assert_eq!(fixed("x"), None);
    assert!(is_number_text(&chars_of("1e-3")));
    assert!(!is_number_text(&chars_of("1e")));
}

#[test]
fn text_is_cut_and_searched() {
    let s = chars_of("  Alpha beta\nGAMMA ");
    assert_eq!(text_of(&trim(&s)), "Alpha beta\nGAMMA");
    assert_eq!(split_lines(&s).len(), 2);
    assert_eq!(split_words(&s).len(), 3);
    assert_eq!(text_of(&lowercase(&chars_of("GAMMA"))), "gamma");
    assert!(contains(&s, "beta"));
    assert!(!contains(&s, "delta"));
    assert!(starts_with(&chars_of("abc"), "ab"));
    assert!(ends_with(&chars_of("abc"), "bc"));
    assert_eq!(find_chars(&chars_of("banana"), &chars_of("an"), 2), Some(3));
    assert_eq!(decimal_text(120), "120");
    assert_eq!(signed_text(-120), "-120");
    let mut out = String::new();
    push_rounded(&mut out, -12_346, 1000, 2);
    assert_eq!(out, "-12.35");
}

#[test]
fn figures_of_lists() {
    let v: Vec<i128> = vec![4_000_000, 1_000_000, 3_000_000, 2_000_000];
    assert_eq!(sum(&v), 10_000_000);
    assert_eq!(mean(&v), 2_500_000);
    assert_eq!(rank(&v, 0), 1_000_000);
    assert_eq!(rank(&v, 3), 4_000_000);
    assert_eq!(percentile(&v, 1, 1), 4_000_000);
    assert_eq!(mean(&[]), 0);
    assert_eq!(std_dev(&[5, 5, 5]), 0);
    assert_eq!(std_dev(&[1_000_000, 3_000_000]), 1_000_000);
    let t: Vec<i64> = (0..5000).collect();
    let many: Vec<i128> = (0..5000).collect();
    assert!(downsample(&t, &many).v.len() <= 2000);
    assert_eq!(downsample(&t[..3], &many[..3]).v, vec![0, 1, 2]);
}
