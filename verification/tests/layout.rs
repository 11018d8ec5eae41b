use rhythr::card::{build_card, card_cover_rect, card_shape, CardShape};
use rhythr::config::{HudPlace, SkinConfig};
use rhythr::drawing::{fill_rect, fit_text, paint, scaled, stroke, write_text, Align, Op, Shape};
use rhythr::finish::{
    active_mod_icons, decode_icons, draw_icons, results_slots, results_tiles, TileKind,
};
use rhythr::fixed::ONE;
use rhythr::font::{leader_ends, leader_span, packs, ring_label, speed_label, Cell, FontAtlas};
use rhythr::hud::{HitDetail, HudState, HudStats};
use rhythr::meters::{draw_error_meters, meter_color, meter_envelope, METER_FADE_MS};
use rhythr::overlay::{
    build_hud, fill_of_ring, finish_element, fits_layout, ring_edges, Canvas, Playfield,
};
use rhythr::pictures::Picture;
use rhythr::replay::{Beatmap, Frame, MapMeta, Note, Replay};
use rhythr::results::{build_results, ResultsPart};
use rhythr::words::SpeedMark;

fn micro(v: f64) -> i64 {
    (v * 1e6).round() as i64
}

fn wide(v: f64) -> i128 {
    micro(v) as i128
}

fn cell(c: char, width: usize, advance: f64) -> Cell {
    Cell {
        code: c as u8,
        width,
        height: 4,
        xmin: 0,
        ymin: 0,
        advance: micro(advance),
        bitmap: vec![c as u8; width * 4],
    }
}

fn atlas() -> FontAtlas {
    let cells: Vec<Cell> =
        (32u8..127).map(|c| cell(c as char, 3 + (c % 4) as usize, 48.0)).collect();
    assert!(packs(&cells));
    let a = FontAtlas::pack(&cells);
    assert!(a.sets());
    a
}

#[test]
fn font_atlas_lays_out_ascii() {
    let atlas = atlas();
    assert!(atlas.glyph('A').is_some());
    assert!(atlas.glyph('5').is_some());
    assert!(atlas.measure("SCORE", wide(40.0)) > atlas.measure("S", wide(40.0)));
}

#[test]
fn letters_keep_their_pixels() {
    let a = atlas();
    let g = a.glyph('A').unwrap();
    assert_eq!(a.pixels[g.ay * a.width + g.ax], b'A');
    assert_eq!(a.pixels[(g.ay + g.ah - 1) * a.width + g.ax + g.aw - 1], b'A');
    assert!(a.glyph('\u{e9}').is_none());
    // 96 pixels are the size at which a letter has its own width.
    assert_eq!(a.measure("ABC", wide(96.0)), wide(3.0 * 48.0));
    assert_eq!(a.measure("", wide(96.0)), 0);
}

#[test]
fn text_is_set_letter_by_letter() {
    let a = atlas();
    let left = a.set_text("AB", wide(10.0), wide(20.0), wide(96.0), Align::Left);
    assert_eq!(left.len(), 2);
    assert_eq!(left[1].x - left[0].x, wide(48.0));
    let right = a.set_text("AB", wide(10.0), wide(20.0), wide(96.0), Align::Right);
    assert_eq!(left[0].x - right[0].x, wide(96.0));
    let centre = a.set_text("AB", wide(10.0), wide(20.0), wide(96.0), Align::Center);
    assert_eq!(left[0].x - centre[0].x, wide(48.0));
}

#[test]
fn fitted_text_is_never_larger() {
    let a = atlas();
    let px = a.fit("ABCD", wide(96.0), wide(96.0));
    assert!(px <= wide(96.0));
    assert!(a.measure("ABCD", px) <= wide(96.0) + 10);
    assert_eq!(a.fit("A", wide(96.0), wide(500.0)), wide(96.0));
}

#[test]
fn leaders_run_between_label_and_value() {
    let a = atlas();
    let far = leader_span(&a, "A", 0, "B", wide(900.0), wide(96.0), wide(10.0)).unwrap();
    assert!(far.0 < far.1);
    assert_eq!(leader_span(&a, "A", 0, "B", wide(60.0), wide(96.0), wide(10.0)), None);
}

#[test]
fn leaders_join_the_last_two_texts() {
    let a = atlas();
    let mut ops: Vec<Op> = Vec::new();
    let ink = paint(255, 255, 255, 1_000_000);
    assert_eq!(leader_ends(&a, &ops, wide(10.0)), None);
    write_text(&mut ops, "old".to_string(), wide(5.0), 0, wide(96.0), Align::Left, ink);
    assert_eq!(leader_ends(&a, &ops, wide(10.0)), None);
    write_text(&mut ops, "A".to_string(), 0, 0, wide(96.0), Align::Left, ink);
    write_text(&mut ops, "B".to_string(), wide(900.0), 0, wide(96.0), Align::Right, ink);
    fill_rect(&mut ops, 0, 0, wide(1.0), wide(1.0), ink);
    let joined = leader_span(&a, "A", 0, "B", wide(900.0), wide(96.0), wide(10.0));
    assert_eq!(leader_ends(&a, &ops, wide(10.0)), joined);
    assert!(joined.is_some());
}

#[test]
fn numbers_stay_inside_their_ring() {
    let a = atlas();
    let (px, base) = ring_label(&a, "7", wide(100.0), wide(50.0));
    assert_eq!(px, wide(55.0));
    assert_eq!(base, wide(50.0 + 55.0 * 0.36));
    let (small, _) = ring_label(&a, "1234567", wide(100.0), 0);
    assert!(small < px);
    assert!(a.measure("1234567", small) <= wide(130.0) + 10);
}

#[test]
fn speeds_are_drawn_as_marks() {
    let a = atlas();
    let p = paint(255, 255, 255, wide(1.0));
    assert!(speed_label(&a, SpeedMark::Unranked, 0, 0, wide(20.0), p).is_none());
    let plain = speed_label(&a, SpeedMark::Plain, 0, 0, wide(20.0), p).unwrap();
    let ranked = SpeedMark::Ranked { steps: 2, up: true };
    let marked = speed_label(&a, ranked, 0, 0, wide(20.0), p).unwrap();
    assert_ne!(plain.len(), marked.len());
}

#[test]
fn drawings_hold_their_operations() {
    let mut ops: Vec<Op> = Vec::new();
    let p = paint(1, 2, 3, wide(0.5));
    write_text(&mut ops, "hi".to_string(), 1, 2, 3, Align::Left, p);
    fit_text(&mut ops, "ho".to_string(), 1, 2, 3, Align::Right, p, 9);
    fill_rect(&mut ops, 1, 2, 3, 4, p);
    stroke(&mut ops, 1, 2, 3, 4, 5, p);
    assert_eq!(ops.len(), 4);
    assert_eq!(ops[0].text, "hi");
    assert!(matches!(ops[1].shape, Shape::Text { widest: 9, .. }));
    assert!(matches!(ops[2].shape, Shape::Rect { x: 1, y: 2, w: 3, h: 4, .. }));
    assert!(matches!(ops[3].shape, Shape::Line { thick: 5, .. }));
    assert_eq!(scaled(10, 3, 4), 8);
}

fn map() -> Beatmap {
    Beatmap {
        meta: MapMeta {
            online_id: None,
            legacy_id: String::new(),
            song_name: "Some Song".to_string(),
            difficulty: 3,
            custom_difficulty_name: String::new(),
            mappers: vec!["Ann".to_string()],
            duration_ms: 4000,
        },
        notes: [1000, 2000, 3000].iter().map(|&t| Note { time_ms: t, x: ONE, y: ONE }).collect(),
    }
}

fn replay() -> Replay {
    Replay {
        timestamp_ticks: 638_000_000_000_000_000,
        player_name: "Cat".to_string(),
        legacy_map_id: String::new(),
        map_id: 0,
        start_from_ms: 0,
        failed: false,
        mods: "[\"mod_mirror\"]".to_string(),
        speed: ONE,
        total_score: 0,
        accuracy_pct: micro(66.0),
        hits: 2,
        misses: 1,
        points: 0,
        fail_time_ms: -1,
        length_ms: 0,
        frames: [1000.0, 2000.0]
            .iter()
            .map(|&t| Frame { ms: micro(t), x: 0, y: 0, health: ONE, hit: true })
            .collect(),
        trailing_bytes: 0,
    }
}

fn stats(t: f64) -> (HudState, HudStats) {
    let (m, r) = (map(), replay());
    let state = HudState::new(&m, &r);
    let s = state.stats_at(&m.notes, &r, micro(t));
    (state, s)
}

fn texts(ops: &[Op]) -> Vec<String> {
    ops.iter().filter(|o| !o.text.is_empty()).map(|o| o.text.clone()).collect()
}

#[test]
fn the_hud_shows_the_run() {
    let cfg = SkinConfig::default();
    let canvas = Canvas {
        width: 1920,
        height: 1080,
        field: Playfield { cx: micro(960.0), cy: micro(540.0), half: micro(300.0) },
        portrait: false,
    };
    assert!(fits_layout(&cfg, &canvas));
    let (state, s) = stats(2500.0);
    let parts = build_hud(
        &cfg,
        state.hits_until(micro(2500.0)),
        &s,
        &replay(),
        &map(),
        micro(2500.0),
        &[],
        &canvas,
    );
    let all: Vec<String> = parts.iter().flat_map(|e| texts(&e.ops)).collect();
    assert!(all.iter().any(|t| t == "300"), "{all:?}");
    assert!(all.iter().any(|t| t.contains("Some Song")), "{all:?}");
    let mut fewer = SkinConfig::default();
    fewer.hud.score = false;
    let rest = build_hud(&fewer, &[], &s, &replay(), &map(), 0, &[], &canvas);
    assert!(rest.iter().flat_map(|e| texts(&e.ops)).all(|t| t != "300"));
}

#[test]
fn the_ring_is_drawn_edge_by_edge() {
    assert_eq!(ring_edges(4, 0), (0, None));
    assert_eq!(ring_edges(4, 1_000_000).0, 4);
    let (whole, part) = ring_edges(4, 625_000);
    assert_eq!(whole, 2);
    assert!(part.is_some());
    let (_, s) = stats(2500.0);
    assert!(fill_of_ring(&s) <= 1_000_000);
}

#[test]
fn elements_are_moved_into_place() {
    let (xs, ys) = ([micro(10.0), micro(30.0)], [micro(20.0), micro(40.0)]);
    assert!(finish_element("score", &[], &[], &[], 100, 100).is_none());
    assert!(finish_element("", &xs, &ys, &[], 100, 100).is_none());
    let (dx, dy, b) = finish_element("score", &xs, &ys, &[], 100, 100).unwrap();
    assert_eq!((dx, dy), (0, 0));
    assert_eq!(b.key, "score");
    assert!(b.x0 <= b.x1 && b.y0 <= b.y1);
    let places = [
        HudPlace { key: "grade".to_string(), x: 0, y: 0 },
        HudPlace { key: "score".to_string(), x: micro(0.5), y: micro(0.9) },
    ];
    let (dx, dy, b) = finish_element("score", &xs, &ys, &places, 100, 100).unwrap();
    assert_eq!((dx, dy), (wide(30.0), wide(60.0)));
    assert_eq!((b.x0, b.y0, b.x1, b.y1), (wide(40.0), wide(80.0), wide(60.0), wide(100.0)));
}

#[test]
fn entries_fan_out() {
    let mut cfg = SkinConfig::default();
    let mut canvas = Canvas {
        width: 1920,
        height: 1080,
        field: Playfield { cx: micro(960.0), cy: micro(540.0), half: micro(300.0) },
        portrait: false,
    };
    let (_, s) = stats(2500.0);
    let tilts = |cfg: &SkinConfig, canvas: &Canvas| -> Vec<(&'static str, i128)> {
        build_hud(cfg, &[], &s, &replay(), &map(), micro(2500.0), &[], canvas)
            .iter()
            .filter_map(|e| e.tilt.map(|t| (e.key, t.angle)))
            .collect()
    };
    assert!(tilts(&cfg, &canvas).is_empty());
    cfg.panel_angle = micro(0.1);
    let fan = tilts(&cfg, &canvas);
    let of = |key: &str| fan.iter().find(|t| t.0 == key).map(|t| t.1);
    let (top, bottom) = (of("score").unwrap(), of("notes").unwrap());
    assert!(top < 0 && bottom > 0);
    // 0.1 * (y - 540) / (1.5 * 142.56) * 1.3, with y = 540 - 237 + 0.6 * 25.596.
    assert_eq!(top, -134_743);
    assert_eq!(of("combo_ring"), None);
    canvas.portrait = true;
    assert!(tilts(&cfg, &canvas).is_empty());
}

#[test]
fn hits_fade_from_the_meters() {
    assert_eq!(meter_envelope(0), 0);
    assert!(meter_envelope(wide(300.0)) > meter_envelope(wide(2000.0)));
    assert_eq!(meter_envelope(METER_FADE_MS as i128), 0);
    assert_ne!(meter_color(0), meter_color(wide(1.0)));
    let mut cfg = SkinConfig::default();
    let hits = vec![HitDetail { hit_ms: micro(100.0), err_ms: micro(5.0), off_x: 0, off_y: 0 }];
    cfg.hud.error_meter.enabled = false;
    cfg.hud.aim_meter.enabled = false;
    assert!(draw_error_meters(&cfg, &hits, micro(150.0), 1920, 1080).is_empty());
    cfg.hud.error_meter.enabled = true;
    let fresh = draw_error_meters(&cfg, &hits, micro(150.0), 1920, 1080).len();
    let old = draw_error_meters(&cfg, &hits, micro(90_000.0), 1920, 1080).len();
    assert!(fresh > old);
}

#[test]
fn results_show_the_final_figures() {
    let (_, s) = stats(5000.0);
    let ops = build_results(&replay(), &map(), &s, 1920, 1080, false, ResultsPart::Full, false);
    let all = texts(&ops);
    assert!(all.iter().any(|t| t.contains("Some Song")), "{all:?}");
    assert!(all.iter().any(|t| t.contains("300")), "{all:?}");
    let header =
        build_results(&replay(), &map(), &s, 1920, 1080, false, ResultsPart::Header, false);
    assert!(header.len() < ops.len());
}

#[test]
fn cards_have_three_shapes() {
    assert_eq!(card_shape(1200, 630), CardShape::Wide);
    assert_eq!(card_shape(1000, 1000), CardShape::Square);
    assert_eq!(card_shape(1080, 1920), CardShape::Tall);
    let (x, y, side) = card_cover_rect(1200, 630);
    assert!(x >= 0 && y >= 0 && x + side <= wide(1200.0) && y + side <= wide(630.0));
    let (_, s) = stats(5000.0);
    let ops = build_card(&replay(), &map(), &s, &SkinConfig::default(), 1200, 630);
    assert!(texts(&ops).iter().any(|t| t.contains("Cat")));
}

#[test]
fn the_results_screen_is_tiled() {
    let tiles = results_tiles(1920, 1080);
    assert!(tiles.iter().any(|t| t.kind == TileKind::Cover));
    assert_eq!(results_slots(1920, false).len(), 1);
    let race = results_slots(1920, true);
    assert!(race.len() > 1);
    assert!(race.iter().any(|s| s.side == 1));
}

#[test]
fn icons_stand_for_the_mods_in_use() {
    let mut cfg = SkinConfig::default();
    cfg.mod_icons = vec![("mod_hardrock".to_string(), vec![1]), ("mod_mirror".to_string(), vec![2])];
    assert_eq!(active_mod_icons(&replay(), &cfg), vec![1]);
    assert!(decode_icons(&[1], &cfg).is_empty());
    let mut px = vec![0u8; 1920 * 1080 * 4];
    let icon = Picture { rgba: [255, 255, 255, 255].repeat(16), width: 4, height: 4 };
    draw_icons(&mut px, 1920, 1080, &[icon.clone()], false, false);
    assert!(px.iter().any(|b| *b == 255));
    let mut many = vec![0u8; 64 * 64 * 4];
    draw_icons(&mut many, 64, 64, &vec![icon; 2500], false, false);
    assert!(many.iter().any(|b| *b == 255));
}
