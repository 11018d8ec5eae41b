use rhythr::fixed::ONE;
use rhythr::mods::{
    apply_mods, cursor_at, detect_flip, has_mod, map_for_replay, mod_list, whole_root, ResolvedMods,
    HARDROCK_GRID_SCALE,
};
use rhythr::replay::{Beatmap, Frame, MapMeta, Note, Replay};

fn micro(v: f64) -> i64 {
    (v * 1e6).round() as i64
}

fn note(t: i64, x: f64, y: f64) -> Note {
    Note { time_ms: t, x: micro(x), y: micro(y) }
}

fn frame(ms: f64, x: f64, y: f64, hit: bool) -> Frame {
    Frame { ms: micro(ms), x: micro(x), y: micro(y), health: ONE, hit }
}

fn map_of(notes: Vec<Note>) -> Beatmap {
    Beatmap {
        meta: MapMeta {
            online_id: None,
            legacy_id: String::new(),
            song_name: String::new(),
            difficulty: 0,
            custom_difficulty_name: String::new(),
            mappers: Vec::new(),
            duration_ms: 0,
        },
        notes,
    }
}

fn replay_with(mods: &str, frames: Vec<Frame>) -> Replay {
    Replay {
        timestamp_ticks: 0,
        player_name: "t".to_string(),
        legacy_map_id: String::new(),
        map_id: 0,
        start_from_ms: 0,
        failed: false,
        mods: mods.to_string(),
        speed: ONE,
        total_score: 0,
        accuracy_pct: micro(100.0),
        hits: frames.iter().filter(|f| f.hit).count() as i32,
        misses: 0,
        points: 0,
        fail_time_ms: -1,
        length_ms: 0,
        frames,
        trailing_bytes: 0,
    }
}

#[test]
fn no_mods_is_identity() {
    let map = map_of(vec![note(100, 0.0, 2.0)]);
    let (seen, r) = map_for_replay(&map, &replay_with("[]", vec![]));
    assert_eq!(r, ResolvedMods::none());
    assert_eq!(seen.notes[0], note(100, 0.0, 2.0));
}

#[test]
fn hardrock_scales_around_centre() {
    let map = map_of(vec![note(100, 0.0, 1.0), note(200, 1.0, 1.0)]);
    let (seen, r) = map_for_replay(&map, &replay_with("[\"mod_hardrock\"]", vec![]));
    assert_eq!(r.grid_scale, HARDROCK_GRID_SCALE);
    assert!((seen.notes[0].x - (ONE - HARDROCK_GRID_SCALE)).abs() <= 1);
    assert_eq!(seen.notes[1], note(200, 1.0, 1.0));
}

#[test]
fn mirror_axis_recovered_from_cursor() {
    let map = map_of(vec![note(100, 0.0, 1.0), note(300, 0.0, 0.0)]);
    let frames = vec![
        frame(90.0, 1.0, 0.0, false),
        frame(100.0, 1.0, 0.0, true),
        frame(290.0, 1.0, 1.0, false),
        frame(300.0, 1.0, 1.0, true),
    ];
    let (seen, r) = map_for_replay(&map, &replay_with("[\"mod_mirror\"]", frames));
    assert_eq!((r.flip_x, r.flip_y), (true, false));
    assert_eq!(seen.notes[0].x, micro(2.0));
}

#[test]
fn mirror_without_hits_falls_back() {
    let map = map_of(vec![note(100, 0.0, 1.0)]);
    let (_, r) = map_for_replay(&map, &replay_with("[\"mod_double_mirror\"]", vec![]));
    assert_eq!((r.flip_x, r.flip_y), (true, true));
}

#[test]
fn lists_that_are_no_json_hold_no_mods() {
    assert!(mod_list(&replay_with("mod_mirror", vec![])).is_empty());
    assert!(mod_list(&replay_with("[1, 2]", vec![])).is_empty());
    let names = mod_list(&replay_with("[\"a\", \"b\\u0041\"]", vec![]));
    assert_eq!(names, vec!["a".to_string(), "bA".to_string()]);
    assert!(has_mod(&names, "bA"));
    assert!(!has_mod(&names, "b"));
}

#[test]
fn the_cursor_runs_straight_between_frames() {
    let frames = vec![frame(0.0, 0.0, 0.0, false), frame(10.0, 1.0, -1.0, false)];
    assert_eq!(cursor_at(&frames, micro(2.5)), (250_000, -250_000));
    assert_eq!(cursor_at(&frames, micro(-5.0)), (0, 0));
    assert_eq!(cursor_at(&frames, micro(50.0)), (1_000_000, -1_000_000));
    assert_eq!(cursor_at(&[], 0), (0, 0));
}

#[test]
fn flips_fall_back_without_hits() {
    let notes = vec![note(100, 0.0, 1.0)];
    assert_eq!(detect_flip(&notes, &[], (true, false)), (true, false));
    assert_eq!(detect_flip(&notes, &[], (false, true)), (false, true));
}

#[test]
fn mirroring_twice_gives_the_notes_back() {
    let names = vec!["mod_double_mirror".to_string()];
    let notes = vec![note(100, 0.25, 1.75), note(200, 2.0, 0.0)];
    let (once, _) = apply_mods(&names, &notes, &[]);
    assert_eq!(once[0], note(100, 1.75, 0.25));
    let (twice, _) = apply_mods(&names, &once, &[]);
    assert_eq!(twice, notes);
}

#[test]
fn roots_are_whole() {
    assert_eq!(whole_root(0), 0);
    assert_eq!(whole_root(15), 3);
    assert_eq!(whole_root(16), 4);
    assert_eq!(whole_root(u128::MAX), u64::MAX);
}
