use rhythr::blit::{blit_over, row_pitch, unpad_rows};
use rhythr::colors::{colorset_color, gradient_color, last_hit_color, note_color};
use rhythr::compose::{compose_background, compose_layers, fits_layers, Corners};
use rhythr::config::{GradientStop, Rgb, SkinConfig};
use rhythr::background::{cover_layer, BackgroundOptions};
use rhythr::error::Error;
use rhythr::fixed::ONE;
use rhythr::frame::{
    draw_order, drawn_counts, ghost_config, scene_items, times_fit, views, Item, INSTANCE_CAP,
};
use rhythr::hitreg::NoteResult;
use rhythr::mods::ResolvedMods;
use rhythr::pictures::{
    average_pool, decode_image_rgba, downscale_icon, png_file, Picture,
};
use rhythr::replay::{Beatmap, Frame, MapMeta, Note, Replay};
use rhythr::scene::{
    curve, grid_to_world, whole_fifth_root, SceneParams, HALFGHOST_FLOOR,
};
use rhythr::side::Side;
use rhythr::trail::{cursor_between, fits_trail, sorted_by_time, trail, DOT_LIMIT};
use rhythr::window::{drawn_rect, frame_rect, pick_format, turn, Answer, Turn};

fn micro(v: f64) -> i64 {
    (v * 1e6).round() as i64
}

fn wide(v: f64) -> i128 {
    micro(v) as i128
}

#[test]
fn grid_centre_is_origin_and_y_flips() {
    assert_eq!(grid_to_world(ONE, ONE), (0, 0));
    let (x0, y0) = grid_to_world(0, 0);
    assert!(x0 < 0 && y0 > 0, "top-left grid is left and up");
    let (x2, y2) = grid_to_world(2 * ONE, 2 * ONE);
    assert!(x2 > 0 && y2 < 0, "bottom-right grid is right and down");
}

#[test]
fn approach_matches_game_model() {
    let p = SceneParams::default();
    assert_eq!(p.note_depth(micro(1000.0), micro(1000.0)), Some(0));
    let d = p.note_depth(micro(1000.0), micro(800.0)).unwrap();
    assert!((d - wide(0.2 * 40.0)).abs() < 1000);
    assert!((p.approach_ms() - wide(1000.0)).abs() < 1000);
    let edge = micro(1000.0) - p.approach_ms() as i64 + micro(1.0);
    assert!(p.note_depth(micro(1000.0), edge).is_some());
    assert_eq!(p.note_depth(micro(1000.0), micro(1001.0)), None);
    assert_eq!(p.note_depth(micro(1000.0), micro(-100.0)), None);
}

#[test]
fn fade_is_full_after_first_half_then_ramps_to_zero() {
    let p = SceneParams::default();
    assert_eq!(p.note_opacity(wide(0.0)), wide(1.0));
    assert_eq!(p.note_opacity(wide(20.0)), wide(1.0));
    assert!(p.note_opacity(wide(30.0)) < wide(1.0) && p.note_opacity(wide(30.0)) > 0);
    assert_eq!(p.note_opacity(wide(40.0)), 0);
}

#[test]
fn halfghost_fades_out_to_calibrated_floor_near_the_plane() {
    let mut p =
        SceneParams { fade_length: micro(0.1), half_ghost: true, ..SceneParams::default() };
    p.approach_rate = micro(28.0);
    let far = wide(12.0 / 50.0 * 28.0);
    let near = wide(3.0 / 50.0 * 28.0);
    let floor = HALFGHOST_FLOOR as i128;
    assert!((p.note_opacity(far) - wide(1.0)).abs() < 1000);
    assert!((p.note_opacity(near) - floor).abs() < 1000);
    assert!((p.note_opacity(0) - floor).abs() < 1000);
    let mid = (far + near) / 2;
    assert!(p.note_opacity(far) > p.note_opacity(mid));
    assert!(p.note_opacity(mid) > p.note_opacity(near));
}

#[test]
fn speed_mods_keep_the_halfghost_fade_zone_in_place() {
    let base = SceneParams { fade_length: micro(0.1), half_ghost: true, ..SceneParams::default() };
    let mut fast = SceneParams { fade_length: micro(0.1), half_ghost: true, ..SceneParams::default() };
    fast.apply_speed(micro(1.45));
    for depth in [0.5, 1.47, 3.0, 5.88, 7.0] {
        assert!(
            (base.note_opacity(wide(depth)) - fast.note_opacity(wide(depth))).abs() < 10,
            "fade moved at depth {depth}"
        );
    }
}

#[test]
fn mods_change_the_scene() {
    let mut p = SceneParams::from_config(&SkinConfig::default());
    assert!(p.is_usable());
    let half = p.playfield_half();
    p.apply_mods(&ResolvedMods { grid_scale: 2 * ONE, flip_x: false, flip_y: false });
    assert!(p.playfield_half() > half);
    let b = p.cursor_bound();
    assert_eq!(p.clamp_cursor((10 * b, -10 * b)), (b, -b));
    assert_eq!(p.clamp_cursor((1, 2)), (1, 2));
}

#[test]
fn the_fade_follows_its_curve() {
    assert_eq!(curve(0), 0);
    assert_eq!(curve(1_000_000), 1_000_000);
    // A half to the power of 1.3.
    assert!((curve(500_000) - 406_126).abs() <= 1);
    assert_eq!(whole_fifth_root(243), 3);
    assert_eq!(whole_fifth_root(242), 2);
}

fn colored(r: f64, g: f64, b: f64) -> Rgb {
    Rgb { r: micro(r), g: micro(g), b: micro(b) }
}

#[test]
fn notes_take_turns_in_colour() {
    let mut cfg = SkinConfig::default();
    cfg.colorset = vec![[1, 2, 3], [4, 5, 6]];
    assert_eq!(note_color(&cfg, 0), colored(1.0, 2.0, 3.0));
    assert_eq!(note_color(&cfg, 3), colored(4.0, 5.0, 6.0));
    assert_ne!(colorset_color("", 0), colorset_color("", 1));
    let results = vec![
        NoteResult { note_index: 0, hit: true, hit_ms: Some(micro(100.0)) },
        NoteResult { note_index: 1, hit: true, hit_ms: Some(micro(200.0)) },
    ];
    assert_eq!(last_hit_color(&cfg, &results, micro(150.0)), Some(colored(1.0, 2.0, 3.0)));
    assert_eq!(last_hit_color(&cfg, &results, micro(250.0)), Some(colored(4.0, 5.0, 6.0)));
    assert_eq!(last_hit_color(&cfg, &results, 0), None);
}

#[test]
fn gradients_reach_their_stops() {
    let stops = vec![
        GradientStop { position: 0, color: colored(0.0, 0.0, 0.0) },
        GradientStop { position: ONE, color: colored(100.0, 200.0, 0.0) },
    ];
    assert_eq!(gradient_color(&stops, 0), colored(0.0, 0.0, 0.0));
    assert_eq!(gradient_color(&stops, ONE), colored(100.0, 200.0, 0.0));
    assert_eq!(gradient_color(&stops, ONE / 2), colored(50.0, 100.0, 0.0));
    assert_eq!(gradient_color(&stops, 5 * ONE), colored(100.0, 200.0, 0.0));
}

#[test]
fn jpeg_cover_decodes() {
    let img = image::RgbImage::from_fn(16, 16, |x, y| {
        image::Rgb([(x * 16) as u8, (y * 16) as u8, 128])
    });
    let mut jpeg = Vec::new();
    image::codecs::jpeg::JpegEncoder::new(&mut jpeg).encode_image(&img).unwrap();
    let p = decode_image_rgba(&jpeg).expect("jpeg decodes");
    assert_eq!((p.width, p.height), (16, 16));
    assert_eq!(p.rgba.len(), 16 * 16 * 4);
}

#[test]
fn indexed_png_decodes() {
    let mut png_bytes = Vec::new();
    {
        let mut enc = png::Encoder::new(std::io::Cursor::new(&mut png_bytes), 2, 2);
        enc.set_color(png::ColorType::Indexed);
        enc.set_depth(png::BitDepth::Eight);
        enc.set_palette(vec![255, 0, 0, 0, 255, 0]);
        let mut writer = enc.write_header().unwrap();
        writer.write_image_data(&[0, 1, 1, 0]).unwrap();
    }
    let p = decode_image_rgba(&png_bytes).expect("indexed png decodes");
    assert_eq!((p.width, p.height), (2, 2));
    assert_eq!(&p.rgba[..4], &[255, 0, 0, 255]);
    assert!(decode_image_rgba(b"nothing").is_none());
}

#[test]
fn written_pictures_are_read_back() {
    let px = vec![1, 2, 3, 255, 4, 5, 6, 255];
    let file = png_file(&px, 2, 1).unwrap();
    let p = decode_image_rgba(&file).unwrap();
    assert_eq!((p.rgba, p.width, p.height), (px.clone(), 2, 1));
    assert!(matches!(png_file(&px, 3, 1), Err(Error::Png(_))));
    assert!(matches!(png_file(&[], 0, 1), Err(Error::Png(_))));
}

#[test]
fn pictures_are_averaged_down() {
    let mut px = Vec::new();
    for v in [0u8, 100, 200, 100] {
        px.extend_from_slice(&[v, v, v, 255]);
    }
    let (small, w, h) = average_pool(&px, 2, 2, 1);
    assert_eq!((w, h), (1, 1));
    assert_eq!(small, vec![100, 100, 100, 255]);
    let (same, w, h) = downscale_icon(&px, 2, 2, 8);
    assert_eq!((same, w, h), (px, 2, 2));
}

#[test]
fn pictures_are_laid_over_each_other() {
    let mut dst = vec![0, 0, 0, 255, 0, 0, 0, 255];
    blit_over(&mut dst, 2, &[200, 100, 50, 255], 1, 1, 1, 0);
    assert_eq!(dst, vec![0, 0, 0, 255, 200, 100, 50, 255]);
    blit_over(&mut dst, 2, &[255, 255, 255, 0], 1, 1, 0, 0);
    assert_eq!(&dst[..4], &[0, 0, 0, 255]);
}

#[test]
fn rows_are_padded_and_unpadded() {
    assert_eq!(row_pitch(64), 256);
    assert_eq!(row_pitch(65), 512);
    assert_eq!(unpad_rows(&[1, 2, 0, 3, 4, 0], 2, 3, 2), vec![1, 2, 3, 4]);
    assert_eq!(unpad_rows(&[1, 2, 3, 4], 2, 2, 2), vec![1, 2, 3, 4]);
}

#[test]
fn backgrounds_cover_the_frame() {
    let layer = cover_layer(Vec::new(), &BackgroundOptions::default());
    let layers = vec![layer];
    assert!(fits_layers(&layers));
    let red = Picture { rgba: [255, 0, 0, 255].repeat(4), width: 2, height: 2 };
    let field = [Corners { x0: 0, y0: 0, x1: 0, y1: 0 }];
    let out = compose_layers(&layers, &[Some(red)], &field, 4, 2);
    assert_eq!(out.len(), 4 * 2 * 4);
    assert!(out.chunks(4).all(|p| p[0] == 255 && p[1] == 0 && p[3] == 255));
    let mut cfg = SkinConfig::default();
    cfg.background_images.clear();
    assert!(compose_background(&cfg, &[], 4, 2).is_none());
}

fn cursor_frames() -> Vec<Frame> {
    (0..100)
        .map(|i| Frame { ms: micro(i as f64 * 10.0), x: i * 10_000, y: 0, health: ONE, hit: false })
        .collect()
}

#[test]
fn the_trail_follows_the_cursor() {
    let mut cfg = SkinConfig::default();
    let frames = cursor_frames();
    assert!(sorted_by_time(&frames));
    assert!(fits_trail(&cfg, &frames, micro(500.0)));
    let dots = trail(&cfg, &frames, micro(500.0));
    assert!(!dots.is_empty());
    assert!(dots.len() <= DOT_LIMIT as usize);
    assert!(dots.iter().all(|d| d.x <= 500_000));
    assert_eq!(cursor_between(&frames, micro(15.0)), (15_000, 0));
    cfg.cursor_trail_enabled = false;
    assert!(trail(&cfg, &frames, micro(500.0)).is_empty());
}

#[test]
fn frames_out_of_order_still_leave_a_trail() {
    let cfg = SkinConfig::default();
    let mut frames = cursor_frames();
    frames.swap(10, 40);
    assert!(!sorted_by_time(&frames));
    assert!(fits_trail(&cfg, &frames, micro(500.0)));
    assert!(!trail(&cfg, &frames, micro(500.0)).is_empty());
    // The first frame that is late enough counts.
    assert_eq!(cursor_between(&frames, micro(100.0)), cursor_between(&frames[..11], micro(100.0)));
    assert_eq!(cursor_between(&frames, micro(400.0)), (frames[10].x as i128, 0));
}

#[test]
fn notes_may_recede() {
    let mut p = SceneParams::default();
    p.approach_rate = -micro(10.0);
    assert!(p.is_usable());
    let notes = vec![note(1000)];
    let items = scene_items(&p, &SkinConfig::default(), false, &notes, None, micro(900.0));
    let depths: Vec<i128> = items
        .iter()
        .filter_map(|i| match i {
            Item::Note { depth, .. } => Some(*depth),
            _ => None,
        })
        .collect();
    assert_eq!(depths, vec![-wide(1.0)]);
    let far = scene_items(&p, &SkinConfig::default(), false, &[note(9_000_000_000_000)], None, 0);
    assert_eq!(far.len(), 2);
    assert!(p.approach_ms() < 0);
}

fn note(t: i64) -> Note {
    Note { time_ms: t, x: ONE, y: ONE }
}

#[test]
fn scenes_hold_the_notes_on_their_way() {
    let p = SceneParams::default();
    let cfg = SkinConfig::default();
    let notes = vec![note(1000), note(1500), note(90_000)];
    assert!(times_fit(&notes));
    let items = scene_items(&p, &cfg, true, &notes, None, micro(900.0));
    assert!(items.iter().any(|i| matches!(i, Item::Background)));
    let shown = |items: &[Item]| {
        items
            .iter()
            .filter_map(|i| match i {
                Item::Note { index, .. } => Some(*index),
                _ => None,
            })
            .collect::<Vec<usize>>()
    };
    assert_eq!(shown(&items).len(), 2);
    // The farther note is drawn first.
    assert_eq!(shown(&draw_order(&items)), vec![1, 0]);
    // Missed notes fly on a little where the skin says so.
    let results = vec![
        NoteResult { note_index: 0, hit: false, hit_ms: None },
        NoteResult { note_index: 1, hit: true, hit_ms: Some(micro(1490.0)) },
        NoteResult { note_index: 2, hit: false, hit_ms: None },
    ];
    let mut back = SkinConfig::default();
    back.push_back = true;
    let late = |cfg: &SkinConfig| {
        shown(&scene_items(&p, cfg, false, &notes, Some(&results), micro(1010.0)))
    };
    assert_eq!(late(&back), vec![0, 1]);
    back.push_back = false;
    assert_eq!(late(&back), vec![1]);
    assert_eq!(drawn_counts(3, 4), (3, 4));
    assert!(drawn_counts(INSTANCE_CAP + 5, 1).0 <= INSTANCE_CAP);
}

#[test]
fn a_race_shares_the_frame() {
    let one = views(1920, false);
    assert_eq!((one.len(), one[0].x, one[0].width), (1, 0, 1920));
    let two = views(1921, true);
    assert_eq!(two.iter().map(|p| p.width).sum::<u32>(), 1921);
    let cfg = ghost_config(SkinConfig::default(), colored(1.0, 2.0, 3.0));
    assert_eq!(cfg.cursor_color, colored(1.0, 2.0, 3.0));
    let mut own = SkinConfig::default();
    own.hud.error_meter.ghost_x = Some(micro(0.25));
    own.hud.aim_meter.ghost_y = Some(micro(0.75));
    let (error, aim) = (own.hud.error_meter, own.hud.aim_meter);
    let ghost = ghost_config(own, colored(1.0, 2.0, 3.0)).hud;
    assert_eq!((ghost.error_meter.x, ghost.error_meter.y), (micro(0.25), error.y));
    assert_eq!((ghost.aim_meter.x, ghost.aim_meter.y), (aim.x, micro(0.75)));
}

#[test]
fn frames_land_inside_the_window() {
    let r = frame_rect(1920, 1080, 960, 960);
    assert_eq!((r.w, r.h), (wide(960.0), wide(540.0)));
    assert_eq!((r.x, r.y), (0, wide(210.0)));
    let d = drawn_rect(1920, 1080, 0, 0);
    assert!(d.w > 0 && d.h > 0);
    assert_eq!(pick_format(&[true, false, true]), Some(1));
    assert_eq!(pick_format(&[true, true]), Some(0));
    assert_eq!(pick_format(&[]), None);
    assert_eq!(turn(Answer::Ready), Turn::Draw);
    assert_eq!(turn(Answer::Lost), Turn::Reconfigure);
    assert_eq!(turn(Answer::Timeout), Turn::Skip);
    assert_eq!(turn(Answer::Validation), Turn::Fail);
}

#[test]
fn sides_are_prepared_for_rendering() {
    let map = Beatmap {
        meta: MapMeta {
            online_id: None,
            legacy_id: String::new(),
            song_name: String::new(),
            difficulty: 0,
            custom_difficulty_name: String::new(),
            mappers: Vec::new(),
            duration_ms: 0,
        },
        notes: vec![note(1000), note(2000)],
    };
    let replay = Replay {
        timestamp_ticks: 0,
        player_name: String::new(),
        legacy_map_id: String::new(),
        map_id: 0,
        start_from_ms: 0,
        failed: false,
        mods: "[\"mod_hardrock\"]".to_string(),
        speed: ONE,
        total_score: 300,
        accuracy_pct: 0,
        hits: 2,
        misses: 0,
        points: 0,
        fail_time_ms: -1,
        length_ms: 0,
        frames: vec![
            Frame { ms: micro(1000.0), x: 0, y: 0, health: ONE, hit: true },
            Frame { ms: micro(2000.0), x: 0, y: 0, health: ONE, hit: true },
        ],
        trailing_bytes: 0,
    };
    let side = Side::prepare(replay, map).unwrap();
    assert_eq!(side.mods.grid_scale, 1_150_000);
    assert_eq!((side.final_stats().score, side.final_stats().hits), (300, 2));
    assert_eq!(side.race().map.notes.len(), 2);
}
