use rhythr::fixed::ONE;
use rhythr::hud::HudState;
use rhythr::race::{
    graph_zero_share, race_bar_value, side_end, synced_race, RaceSeries, RaceSide,
};
use rhythr::replay::{Beatmap, Frame, MapMeta, Note, Replay};

fn micro(v: f64) -> i64 {
    (v * 1e6).round() as i64
}

fn map_with(times: &[i64]) -> Beatmap {
    Beatmap {
        meta: MapMeta {
            online_id: None,
            legacy_id: String::new(),
            song_name: String::new(),
            difficulty: 0,
            custom_difficulty_name: String::new(),
            mappers: Vec::new(),
            duration_ms: 0,
        },
        notes: times.iter().map(|&t| Note { time_ms: t, x: ONE, y: ONE }).collect(),
    }
}

fn replay_with(hit_times: &[f64]) -> Replay {
    Replay {
        timestamp_ticks: 0,
        player_name: "t".to_string(),
        legacy_map_id: String::new(),
        map_id: 0,
        start_from_ms: 0,
        failed: false,
        mods: "[]".to_string(),
        speed: ONE,
        total_score: 0,
        accuracy_pct: micro(100.0),
        hits: hit_times.len() as i32,
        misses: 0,
        points: 0,
        fail_time_ms: -1,
        length_ms: 0,
        frames: hit_times
            .iter()
            .map(|&t| Frame { ms: micro(t), x: 0, y: 0, health: ONE, hit: true })
            .collect(),
        trailing_bytes: 0,
    }
}

const NOTES: [i64; 4] = [1000, 2000, 3000, 4000];

fn series_of(mr: &Replay, gr: &Replay) -> RaceSeries {
    let map = map_with(&NOTES);
    let (ms, gs) = (HudState::new(&map, mr), HudState::new(&map, gr));
    RaceSeries::build(
        &RaceSide { map: &map, replay: mr, state: &ms },
        &RaceSide { map: &map, replay: gr, state: &gs },
        0,
        micro(5000.0),
        5,
    )
}

#[test]
fn score_delta_matches_both_huds_at_every_sample() {
    let s = series_of(
        &replay_with(&[1005.0, 2005.0, 3005.0, 4005.0]),
        &replay_with(&[1005.0, 3005.0, 4005.0]),
    );
    let deltas: Vec<i64> = s.samples.iter().map(|p| p.score_delta).collect();
    assert_eq!(deltas, vec![0, 0, 200, 400, 600]);
    let last = s.samples.last().unwrap();
    assert_eq!(last.t_ms, micro(5000.0));
    assert!((last.acc[0] - micro(100.0)).abs() < 100);
    assert!((last.acc[1] - micro(75.0)).abs() < 100);
}

#[test]
fn lead_changes_flag_each_sign_flip_and_zero_is_neutral() {
    let s = series_of(&replay_with(&[2005.0, 3005.0, 4005.0]), &replay_with(&[1005.0, 4005.0]));
    let deltas: Vec<i64> = s.samples.iter().map(|p| p.score_delta).collect();
    assert_eq!(deltas, vec![0, -100, 0, 200, 400]);
    assert_eq!(s.lead_changes, vec![micro(3750.0)]);
}

#[test]
fn failed_side_freezes_at_its_fail_time() {
    let mr = replay_with(&[1005.0, 2005.0, 3005.0, 4005.0]);
    let mut gr = replay_with(&[1005.0, 2005.0]);
    gr.fail_time_ms = 2500;
    gr.failed = true;
    let s = series_of(&mr, &gr);
    let last = s.samples.last().unwrap();
    assert_eq!(last.score_delta, 1000 - 300);
    assert!((last.acc[1] - micro(100.0)).abs() < 100);
    assert_eq!(side_end(&gr), Some(micro(2581.0)));
    assert_eq!(side_end(&mr), None);
}

#[test]
fn synced_delta_stays_zero_while_both_answer_notes_identically() {
    let map = map_with(&[1000, 2000]);
    let (mr, gr) = (replay_with(&[1005.0, 2005.0]), replay_with(&[1030.0, 2030.0]));
    let (ms, gs) = (HudState::new(&map, &mr), HudState::new(&map, &gr));
    let m = RaceSide { map: &map, replay: &mr, state: &ms };
    let g = RaceSide { map: &map, replay: &gr, state: &gs };
    assert_eq!(synced_race(&m, &g, micro(1010.0)).delta, 0);
    assert_eq!(synced_race(&m, &g, micro(1010.0)).settled, 0);
    let at_1035 = synced_race(&m, &g, micro(1035.0));
    assert_eq!((at_1035.delta, at_1035.settled), (0, 1));
    assert_eq!(at_1035.scores, [100, 100]);
    assert_eq!(synced_race(&m, &g, micro(2010.0)).settled, 1);
    assert_eq!(synced_race(&m, &g, micro(2010.0)).delta, 0);
}

#[test]
fn synced_delta_moves_only_when_a_note_resolves_differently() {
    let map = map_with(&[1000, 2000]);
    let (mr, gr) = (replay_with(&[1005.0, 2005.0]), replay_with(&[1030.0]));
    let (ms, gs) = (HudState::new(&map, &mr), HudState::new(&map, &gr));
    let m = RaceSide { map: &map, replay: &mr, state: &ms };
    let g = RaceSide { map: &map, replay: &gr, state: &gs };
    assert_eq!(synced_race(&m, &g, micro(2050.0)).delta, 0);
    let done = synced_race(&m, &g, micro(2085.0));
    assert_eq!((done.delta, done.settled), (200, 2));
    assert_eq!(done.scores, [300, 100]);
}

#[test]
fn synced_delta_keeps_growing_after_a_side_fails() {
    let map = map_with(&[1000, 2000, 3000]);
    let mr = replay_with(&[1005.0, 2005.0, 3005.0]);
    let mut gr = replay_with(&[1030.0]);
    gr.fail_time_ms = 1500;
    gr.failed = true;
    let (ms, gs) = (HudState::new(&map, &mr), HudState::new(&map, &gr));
    let m = RaceSide { map: &map, replay: &mr, state: &ms };
    let g = RaceSide { map: &map, replay: &gr, state: &gs };
    let late = synced_race(&m, &g, micro(3500.0));
    assert_eq!((late.delta, late.settled), (500, 3));
    assert_eq!(late.scores, [600, 100]);
}

#[test]
fn lead_bar_scales_with_the_relative_lead_and_warms_up() {
    assert_eq!(race_bar_value(5_000, 10_000, 10), 0);
    assert_eq!(race_bar_value(0, 100_000, 200), 0);
    assert!((race_bar_value(12_000, 100_000, 200) - micro(0.24)).abs() <= 1);
    assert_eq!(race_bar_value(-60_000, 100_000, 200), -ONE);
    assert_eq!(race_bar_value(100, 0, 200), 0);
}

#[test]
fn graph_zero_line_follows_the_lead_extremes_within_bounds() {
    assert_eq!(graph_zero_share(500, 500), micro(0.5));
    assert_eq!(graph_zero_share(300, 100), micro(0.75));
    assert_eq!(graph_zero_share(1000, 0), micro(0.88));
    assert_eq!(graph_zero_share(0, 1000), micro(0.12));
    assert_eq!(graph_zero_share(0, 0), micro(0.5));
}

#[test]
fn whole_map_series_spans_start_to_just_past_the_last_note() {
    let map = map_with(&NOTES);
    let (mr, gr) = (replay_with(&[1005.0, 2005.0, 3005.0, 4005.0]), replay_with(&[1005.0]));
    let (ms, gs) = (HudState::new(&map, &mr), HudState::new(&map, &gr));
    let s = RaceSeries::for_race(
        &RaceSide { map: &map, replay: &mr, state: &ms },
        &RaceSide { map: &map, replay: &gr, state: &gs },
    );
    assert_eq!(s.samples.len(), 240);
    assert_eq!(s.samples[0].t_ms, 0);
    assert_eq!(s.samples.last().unwrap().t_ms, micro(5000.0));
}

#[test]
fn an_even_race_has_no_lead() {
    let s = series_of(&replay_with(&[1005.0, 2005.0]), &replay_with(&[1005.0, 2005.0]));
    assert!(s.samples.iter().all(|p| p.score_delta == 0));
    assert!(s.lead_changes.is_empty());
}

#[test]
fn a_run_without_flips_has_no_lead_change() {
    let s = series_of(&replay_with(&[1005.0, 2005.0, 3005.0]), &replay_with(&[]));
    assert!(s.samples.iter().all(|p| p.score_delta >= 0));
    assert!(s.lead_changes.is_empty());
}

#[test]
fn swapping_the_sides_mirrors_the_race() {
    let map = map_with(&[1000, 2000, 3000, 4000]);
    let (mr, gr) =
        (replay_with(&[1005.0, 2005.0, 4005.0]), replay_with(&[2005.0, 3005.0, 4005.0]));
    let (ms, gs) = (HudState::new(&map, &mr), HudState::new(&map, &gr));
    let m = RaceSide { map: &map, replay: &mr, state: &ms };
    let g = RaceSide { map: &map, replay: &gr, state: &gs };
    for i in 0..60 {
        let t = micro(i as f64 * 100.0);
        let (one, other) = (synced_race(&m, &g, t), synced_race(&g, &m, t));
        assert_eq!(one.settled, other.settled);
        assert_eq!(one.delta, -other.delta);
        assert_eq!(one.scores, [other.scores[1], other.scores[0]]);
    }
    let (one, other) = (series_of(&mr, &gr), series_of(&gr, &mr));
    assert_eq!(one.lead_changes, other.lead_changes);
    for (a, b) in one.samples.iter().zip(&other.samples) {
        assert_eq!(a.score_delta, -b.score_delta);
        assert_eq!(a.acc, [b.acc[1], b.acc[0]]);
    }
}
