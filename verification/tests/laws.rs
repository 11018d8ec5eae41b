use rhythr::background::{clamp_cover_offset, sync_offset};
use rhythr::config::SkinConfig;
use rhythr::drawing::Shape;
use rhythr::exe_assets::{locate_blob_base, scan_entries, MAX_ENTRIES};
use rhythr::extraction::plan_extraction;
use rhythr::fixed::ONE;
use rhythr::font::{Cell, FontAtlas};
use rhythr::hud::{live_rp, HudState, RingState};
use rhythr::mesh::Mesh;
use rhythr::nv12::{nv12_len, rgba_to_nv12, worker_count};
use rhythr::overlay::{build_hud, Canvas, Playfield};
use rhythr::pictures::{average_pool, downscale_icon};
use rhythr::race::{race_bar_value, synced_race, RaceSide};
use rhythr::replay::{Beatmap, Frame, MapMeta, Note, Replay};
use rhythr::scene::{grid_to_world, SceneParams, HALFGHOST_FLOOR};
use rhythr::stats::rank;
use rhythr::transport::{candidates, Transport};
use rhythr::video::partial_name;

fn micro(v: f64) -> i64 {
    (v * 1e6).round() as i64
}

fn map_with(times: &[i64]) -> Beatmap {
    Beatmap {
        meta: MapMeta {
            online_id: None,
            legacy_id: String::new(),
            song_name: String::new(),
            difficulty: 0,
            custom_difficulty_name: String::new(),
            mappers: Vec::new(),
            duration_ms: 0,
        },
        notes: times.iter().map(|&t| Note { time_ms: t, x: ONE, y: ONE }).collect(),
    }
}

fn replay_with(hit_times: &[f64]) -> Replay {
    Replay {
        timestamp_ticks: 0,
        player_name: String::new(),
        legacy_map_id: String::new(),
        map_id: 0,
        start_from_ms: 0,
        failed: false,
        mods: "[]".to_string(),
        speed: ONE,
        total_score: 0,
        accuracy_pct: micro(100.0),
        hits: hit_times.len() as i32,
        misses: 0,
        points: 0,
        fail_time_ms: -1,
        length_ms: 0,
        frames: hit_times
            .iter()
            .map(|&t| Frame { ms: micro(t), x: 0, y: 0, health: ONE, hit: true })
            .collect(),
        trailing_bytes: 0,
    }
}

#[test]
fn unfinished_videos_stand_aside() {
    assert_eq!(partial_name("a.b.mkv"), "a.b.rhythr-part.mkv");
    assert_eq!(partial_name("clip"), "clip.rhythr-part");
    assert_eq!(partial_name(".mp4"), ".mp4.rhythr-part");
    assert_eq!(partial_name("clip."), "clip.rhythr-part.");
    assert_eq!(partial_name(""), ".rhythr-part");
}

#[test]
fn the_lead_bar_is_true() {
    assert_eq!(race_bar_value(50, 100, 20), ONE);
    assert_eq!(race_bar_value(25, 100, 20), ONE / 2);
    assert_eq!(race_bar_value(-25, 100, 20), -ONE / 2);
    assert_eq!(race_bar_value(i64::MAX, 1, 20), ONE);
    assert_eq!(race_bar_value(25, 100, 19), 0);
}

#[test]
fn settled_notes_only_grow() {
    let map = map_with(&[1000, 2000, 3000]);
    let (mr, gr) = (replay_with(&[1005.0, 2005.0]), replay_with(&[1030.0, 3030.0]));
    let (ms, gs) = (HudState::new(&map, &mr), HudState::new(&map, &gr));
    let m = RaceSide { map: &map, replay: &mr, state: &ms };
    let g = RaceSide { map: &map, replay: &gr, state: &gs };
    let settled: Vec<u32> =
        (0..50).map(|i| synced_race(&m, &g, micro(i as f64 * 100.0)).settled).collect();
    assert!(settled.windows(2).all(|w| w[0] <= w[1]));
    assert_eq!(settled.last(), Some(&3));
}

#[test]
fn resolved_notes_only_grow() {
    let map = map_with(&[1000, 2000, 3000]);
    let replay = replay_with(&[1005.0, 3005.0]);
    let state = HudState::new(&map, &replay);
    let seen: Vec<u32> = (0..50)
        .map(|i| state.stats_at(&map.notes, &replay, micro(i as f64 * 100.0)).resolved)
        .collect();
    assert!(seen.windows(2).all(|w| w[0] <= w[1]));
    assert_eq!(seen.last(), Some(&3));
}

#[test]
fn the_ring_stays_between_triangle_and_octagon() {
    let mut r = RingState::new();
    for _ in 0..200 {
        r.on_hit(0);
        assert!((3..=8).contains(&r.sides_at(0)));
    }
    for _ in 0..20 {
        r.on_miss(0);
        assert!((3..=8).contains(&r.sides_at(0)));
    }
}

#[test]
fn rows_run_down_and_columns_run_right() {
    assert!(grid_to_world(0, 0).1 > grid_to_world(0, ONE).1);
    assert!(grid_to_world(0, 0).0 < grid_to_world(ONE, 0).0);
}

#[test]
fn half_ghosts_stay_visible() {
    let p = SceneParams { half_ghost: true, ..SceneParams::default() };
    for d in 0..20 {
        assert!(p.note_opacity(d as i128 * 1_000_000) >= HALFGHOST_FLOOR as i128);
    }
    let g = SceneParams { full_ghost: true, ..SceneParams::default() };
    assert!(g.note_opacity(0) < HALFGHOST_FLOOR as i128);
}

#[test]
fn shrunk_pictures_reach_the_target() {
    for (w, h) in [(1u32, 100u32), (33, 7), (100, 100), (20, 20)] {
        let px = vec![7u8; (w * h * 4) as usize];
        let (a, aw, ah) = average_pool(&px, w, h, 20);
        assert!(aw >= 1 && ah >= 1 && aw <= 20 && ah <= 20);
        assert_eq!(a.len(), (aw * ah * 4) as usize);
        let (b, bw, bh) = downscale_icon(&px, w, h, 20);
        assert!(bw >= 1 && bh >= 1 && bw <= 20 && bh <= 20);
        assert_eq!(b.len(), (bw * bh * 4) as usize);
    }
}

#[test]
fn letters_do_not_overlap() {
    let cells: Vec<Cell> = (32u8..127)
        .map(|c| Cell {
            code: c,
            width: 60,
            height: 10 + (c % 7) as usize,
            xmin: 0,
            ymin: 0,
            advance: micro(60.0),
            bitmap: vec![c; 60 * (10 + (c % 7) as usize)],
        })
        .collect();
    let a = FontAtlas::pack(&cells);
    for c in 32u8..127 {
        let g = a.glyph(c as char).unwrap();
        for y in g.ay..g.ay + g.ah {
            for x in g.ax..g.ax + g.aw {
                assert_eq!(a.pixels[y * a.width + x], c);
            }
        }
    }
}

#[test]
fn columns_mirror_about_the_field() {
    let map = map_with(&[1000]);
    let replay = replay_with(&[1000.0]);
    let state = HudState::new(&map, &replay);
    let stats = state.stats_at(&map.notes, &replay, micro(2000.0));
    let canvas = Canvas {
        width: 1920,
        height: 1080,
        field: Playfield { cx: micro(900.0), cy: micro(500.0), half: micro(300.0) },
        portrait: false,
    };
    let cfg = SkinConfig::default();
    let parts = build_hud(&cfg, &[], &stats, &replay, &map, micro(2000.0), &[], &canvas);
    let column = |key: &str| {
        parts.iter().find(|e| e.key == key).and_then(|e| {
            e.ops.iter().find_map(|op| match op.shape {
                Shape::Text { x, .. } => Some(x),
                _ => None,
            })
        })
    };
    let (left, right) = (column("accuracy").unwrap(), column("misses").unwrap());
    assert_eq!(left + right, 2 * micro(900.0) as i128);
}

#[test]
fn ranks_are_members() {
    let v: Vec<i128> = vec![5, 3, 3, 9, -2];
    let sorted: Vec<i128> = (0..5).map(|k| rank(&v, k)).collect();
    assert_eq!(sorted, vec![-2, 3, 3, 5, 9]);
}

#[test]
fn meshes_only_name_their_own_vertices() {
    let m = Mesh::from_obj_str("v 0 0 0\nv 1 0 0\nv 0 1 0\nv 1 1 0\nf 1 2 3\nf -1 -2 -3\n").unwrap();
    assert!(m.indices.iter().all(|i| (*i as usize) < m.vertices.len()));
    assert_eq!(m.indices.len() % 3, 0);
}

#[test]
fn offsets_lie_in_the_loop() {
    for t in [0.0, 1.0, 39.9, 40.0, 1234.5] {
        let o = sync_offset(micro(t), micro(5.0), Some(micro(45.0)));
        assert!((0..micro(40.0)).contains(&o));
    }
}

#[test]
fn shifts_keep_the_frame_covered() {
    for wanted in [-1000.0, -10.0, 0.0, 10.0, 1000.0] {
        let s = clamp_cover_offset(micro(wanted), micro(300.0), micro(200.0));
        assert!(s.abs() <= micro(50.0));
    }
}

#[test]
fn entries_are_bounded() {
    let mut exe = Vec::new();
    for i in 0..MAX_ENTRIES + 50 {
        let name = format!("Rhythia.Resources.Textures.Game.notes.n{i}.png");
        exe.push((name.len() as u8) << 1);
        exe.extend_from_slice(name.as_bytes());
        exe.extend_from_slice(&[0, 2, 0xBB]);
    }
    let entries = scan_entries(&exe);
    assert_eq!(entries.len(), MAX_ENTRIES);
    if let Some(base) = locate_blob_base(&exe, &entries) {
        let x = plan_extraction(&exe, base, &entries);
        assert!(x.files.iter().all(|f| f.start + f.len <= exe.len()));
    }
}

#[test]
fn gradients_are_sorted() {
    let c = SkinConfig::from_json(
        r##"{"CursorTrailGradient": {"Value": [
            {"Position": 0.9, "Red": 255, "Green": 0, "Blue": 0},
            {"Position": 0.1, "Red": 0, "Green": 255, "Blue": 0}
        ]}}"##,
    )
    .unwrap();
    let at: Vec<i64> = c.cursor_trail_gradient.iter().map(|s| s.position).collect();
    assert_eq!(at, vec![100_000, 900_000]);
}

#[test]
fn transports_have_names_of_their_own() {
    let mut all = candidates();
    all.extend([0, 1, 1000, 1024, 1_048_575, 1_048_576, 2_097_152].map(Transport::Socket));
    for a in &all {
        for b in &all {
            assert_eq!(a.label() == b.label(), a == b);
        }
    }
    assert_eq!(Transport::Socket(2048).label(), "socket, 2 KiB");
}

#[test]
fn clear_pixels_never_show() {
    let icon = |hidden: [u8; 3]| -> Vec<u8> {
        (0..16usize)
            .flat_map(|i| {
                if i % 3 == 0 {
                    [hidden[0], hidden[1], hidden[2], 0]
                } else {
                    [200, 100, 50, 255]
                }
            })
            .collect()
    };
    let dark = downscale_icon(&icon([0, 0, 0]), 4, 4, 2);
    assert_eq!(dark, downscale_icon(&icon([255, 9, 77]), 4, 4, 2));
    assert_eq!(dark.0[..3], [200, 100, 50]);
}

#[test]
fn grey_blocks_are_neutral() {
    let levels = [0u8, 90, 180, 255, 13, 200, 7, 128];
    let src: Vec<u8> = levels.iter().flat_map(|&l| [l, l, l, 255]).collect();
    let mut dst = vec![0u8; nv12_len(4, 2)];
    assert!(rgba_to_nv12(&src, 4, 2, &mut dst));
    assert_eq!(dst[8..], [128, 128, 128, 128]);
    assert_eq!((worker_count(0), worker_count(3), worker_count(64)), (1, 3, 8));
}

#[test]
fn points_of_any_size_are_scaled() {
    assert_eq!(live_rp(micro(500.0), micro(100.0), micro(100.0)), micro(500.0));
    assert_eq!(live_rp(micro(500.0), micro(95.0), micro(100.0)), micro(62.5));
    assert_eq!(live_rp(i64::MAX, micro(100.0), micro(100.0)), i64::MAX);
    assert_eq!(live_rp(i64::MAX, micro(95.0), micro(100.0)), i64::MAX / 8 + 1);
    assert_eq!(live_rp(i64::MAX, micro(100.0), micro(91.0)), i64::MAX);
    assert_eq!(live_rp(i64::MAX, micro(100.0), i64::MAX), 0);
    assert_eq!(live_rp(-5, micro(100.0), micro(100.0)), 0);
    assert_eq!(live_rp(micro(3.0), micro(91.0), micro(90.0)), micro(3.0));
}

#[test]
fn runs_end_on_their_points() {
    for acc in [micro(89.0), micro(90.05), micro(93.7), micro(100.0)] {
        assert_eq!(live_rp(micro(123.456), acc, acc), micro(123.456));
        assert_eq!(live_rp(i64::MAX, acc, acc), i64::MAX);
    }
}

#[test]
fn values_rest_past_the_last_note() {
    let map = map_with(&[1000, 2000, 3000]);
    let replay = replay_with(&[1005.0, 3079.0]);
    let state = HudState::new(&map, &replay);
    let at = |t: f64| {
        let s = state.stats_at(&map.notes, &replay, micro(t));
        (s.score, s.hits, s.misses, s.combo, s.accuracy_pct)
    };
    assert_ne!(at(3000.0), at(4000.0));
    assert_eq!(at(3081.0), at(4000.0));
    assert_eq!(at(4000.0), at(9_000_000.0));
}
