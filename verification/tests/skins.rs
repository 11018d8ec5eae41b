use rhythr::builtin::{
    builtin_ref, colorset, colorset_ref, parse_colorset, parse_hex, read_colorsets, BuiltinFiles,
};
use rhythr::config::{ErrorMeter, NoteShape, SkinConfig};
use rhythr::error::Error;
use rhythr::exe_assets::{decode_unsigned, find, locate_blob_base, scan_entries};
use rhythr::extent::{bounds, normalize_xy, xy_half_extent, Point};
use rhythr::extraction::{
    colors_file, colors_in, extract, plan_extraction, route_name, sane_component, Colorset,
    Refusal,
};
use rhythr::mesh::Mesh;
use rhythr::rhs::{bounded_entry, is_file_under, size_refusal, MAX_RHS_ENTRY_BYTES};
use std::io::Write;

fn micro(v: f64) -> i64 {
    (v * 1e6).round() as i64
}

#[test]
fn parses_value_wrapped_fields() {
    let json = r#"{
        "CameraFov": {"Value": 75},
        "ApproachRate": {"Value": 28},
        "NoteScale": {"Value": 0.93},
        "FadeLength": {"Value": 0.1},
        "Parallax": {"Value": 0},
        "HalfGhost": {"Value": true},
        "NoteSkin": {"Value": "Textures/Game/notes/thin.png"},
        "BorderSkin": {"Value": "Textures/Game/borders/small-corners.png"},
        "CursorTrailEnabled": {"Value": false}
    }"#;
    let c = SkinConfig::from_json(json).unwrap();
    assert_eq!(c.camera_fov, micro(75.0));
    assert_eq!(c.approach_rate, micro(28.0));
    assert_eq!(c.note_scale, micro(0.93));
    assert_eq!(c.fade_length, micro(0.1));
    assert_eq!(c.parallax, 0);
    assert!(c.half_ghost);
    assert_eq!(c.note_shape, NoteShape::Thin);
    assert!(c.border_is_corners());
    assert!(!c.cursor_trail_enabled);
}

#[test]
fn missing_fields_fall_back_to_game_defaults() {
    let c = SkinConfig::from_json("{}").unwrap();
    assert_eq!(c.camera_fov, micro(70.0));
    assert!(c.cursor_trail_enabled);
}

#[test]
fn absent_fields_are_the_defaults() {
    let read = SkinConfig::from_json("{}").unwrap();
    let own = SkinConfig::default();
    assert_eq!(format!("{read:?}"), format!("{own:?}"));
    assert_eq!(own.ambient.chevron_gap, micro(1250.0));
    assert_eq!(own.ambient.tunnel_opacity, micro(0.2));
    assert_eq!(own.ambient.accent.r, micro(255.0));
    assert_eq!(own.panel_angle, 0);
    assert!(own.hud.positions.is_empty());
}

#[test]
fn colours_are_written_by_name() {
    assert_eq!(colors_file(&[]), Ok(None));
    let set = |name: &str, colors: &[&str]| Colorset {
        name: name.to_string(),
        colors: colors.iter().map(|c| c.to_string()).collect(),
    };
    let text = colors_file(&[set("b", &["#ff0000", "#00ff00"]), set("a", &["#0000ff"])]);
    let expected = "{\n  \"a\": [\n    \"#0000ff\"\n  ],\n  \"b\": [\n    \"#ff0000\",\n    \"#00ff00\"\n  ]\n}";
    assert_eq!(text, Ok(Some(expected.to_string())));
}

#[test]
fn broken_settings_are_refused() {
    let e = SkinConfig::from_json("{").unwrap_err();
    assert!(matches!(e, Error::Config(_)));
    assert!(!e.message().is_empty());
}

#[test]
fn note_shape_classification() {
    assert_eq!(NoteShape::from_skin("notes/thin.png"), NoteShape::Thin);
    assert_eq!(NoteShape::from_skin("notes/circle.png"), NoteShape::Circle);
    assert_eq!(NoteShape::from_skin("notes/rounded_fixed.png"), NoteShape::Rounded);
    assert_eq!(NoteShape::from_skin("notes/square 3.png"), NoteShape::Square);
}

#[test]
fn shapes_differ_in_their_outline() {
    assert_ne!(NoteShape::Thin.sdf_params(), NoteShape::Circle.sdf_params());
    let m = ErrorMeter::at(1, 2);
    assert_eq!((m.enabled, m.x, m.y), (false, 1, 2));
}

#[test]
fn parses_colorset_hex_lines() {
    let cols = parse_colorset("#00BFFF\r\n#FFFF00\r\ngarbage\r\n#ff0000");
    assert_eq!(cols.len(), 3);
    assert_eq!(cols[0], [0, 191, 255]);
    assert_eq!(cols[2], [255, 0, 0]);
}

fn zip_of(files: &[(&str, &[u8])]) -> Vec<u8> {
    let mut zw = zip::ZipWriter::new(std::io::Cursor::new(Vec::new()));
    for (name, bytes) in files {
        zw.start_file(*name, zip::write::SimpleFileOptions::default()).unwrap();
        zw.write_all(bytes).unwrap();
    }
    zw.finish().unwrap().into_inner()
}

#[test]
fn imports_bundled_assets_from_rhs() {
    let data = zip_of(&[
        ("config", br#"{"NoteScale":{"Value":0.8}}"#),
        ("noteSkin/my note.png", b"\x89PNG-fake-bytes"),
        ("colorSet/set.txt", b"#8b87ff\r\n#ffe1c9"),
    ]);
    let c = SkinConfig::from_rhs(&data).unwrap();
    assert_eq!(c.note_scale, micro(0.8));
    assert_eq!(c.note_texture.as_deref(), Some(&b"\x89PNG-fake-bytes"[..]));
    assert!(c.border_texture.is_none());
    assert_eq!(c.colorset, vec![[139, 135, 255], [255, 225, 201]]);
}

#[test]
fn rhs_without_config_errors() {
    let data = zip_of(&[("noteSkin/x.png", b"x")]);
    assert!(SkinConfig::from_rhs(&data).is_err());
}

#[test]
fn files_are_read_by_their_extension() {
    let json = br#"{"NoteScale":{"Value":0.5}}"#;
    assert_eq!(SkinConfig::from_bytes("json", json).unwrap().note_scale, micro(0.5));
    let data = zip_of(&[("config", json)]);
    assert_eq!(SkinConfig::from_bytes("rhs", &data).unwrap().note_scale, micro(0.5));
    assert!(matches!(SkinConfig::from_rhs(b"no archive"), Err(Error::Config(_))));
    assert!(SkinConfig::from_bytes("json", b"\xff\xfe").is_err());
}

#[test]
fn archive_entries_are_bounded() {
    assert_eq!(size_refusal("a", MAX_RHS_ENTRY_BYTES), None);
    assert!(size_refusal("a", MAX_RHS_ENTRY_BYTES + 1).unwrap().contains('a'));
    assert_eq!(bounded_entry("a", vec![1, 2]), Ok(vec![1, 2]));
    assert!(is_file_under("noteSkin/x.png", "noteSkin/"));
    assert!(!is_file_under("noteSkin/", "noteSkin/"));
    assert!(!is_file_under("borderSkin/x.png", "noteSkin/"));
}

#[test]
fn builtin_ref_extracts_name() {
    assert_eq!(
        builtin_ref("Textures/Game/colorsets/Arctic.txt", "colorsets").as_deref(),
        Some("Arctic.txt")
    );
    assert_eq!(
        builtin_ref("Textures/Game/notes/thin.png", "notes").as_deref(),
        Some("thin.png")
    );
    assert_eq!(builtin_ref(r"C:\Users\x\AppData\...\my note.png", "notes"), None);
}

#[test]
fn parses_hex() {
    assert_eq!(parse_hex("#a2e0ff"), Some([162, 224, 255]));
    assert_eq!(parse_hex("bad"), None);
}

#[test]
fn colour_sets_are_found_by_name() {
    let sets = read_colorsets(r##"{"Arctic":["#ffffff","#a2e0ff"],"Empty":[]}"##);
    assert_eq!(colorset(&sets, "Arctic"), Some(&vec![[255, 255, 255], [162, 224, 255]]));
    assert_eq!(colorset(&sets, "Nowhere"), None);
    assert_eq!(colorset_ref("Textures/Game/colorsets/Arctic.txt").as_deref(), Some("Arctic"));
    assert!(read_colorsets("nonsense").is_empty());
}

#[test]
fn own_pictures_stay() {
    let mut c = SkinConfig::from_json(
        r#"{"NoteSkin": {"Value": "Textures/Game/notes/thin.png"},
            "CursorSkin": {"Value": "Textures/Game/cursors/dot.png"}}"#,
    )
    .unwrap();
    c.note_texture = Some(vec![1]);
    let asked = c.builtin_requests();
    assert_eq!(asked.note, None);
    assert_eq!(asked.cursor.as_deref(), Some("dot.png"));
    c.resolve_builtins(
        &[],
        BuiltinFiles {
            font: None,
            icons: vec![],
            note: Some(vec![2]),
            border: None,
            cursor: Some(vec![3]),
        },
    );
    assert_eq!(c.note_texture, Some(vec![1]));
    assert_eq!(c.cursor_texture, Some(vec![3]));
}

fn encode_unsigned(v: u64) -> Vec<u8> {
    if v < 0x80 {
        vec![(v << 1) as u8]
    } else {
        assert!(v < 0x4000);
        vec![((v << 2) | 0x01) as u8, (v >> 6) as u8]
    }
}

#[test]
fn varint_roundtrip() {
    for v in [0u64, 1, 63, 64, 127, 128, 300, 16000] {
        let enc = encode_unsigned(v);
        let (dec, used) = decode_unsigned(&enc, 0).unwrap();
        assert_eq!((dec, used), (v, enc.len()), "value {v}");
    }
    assert_eq!(
        decode_unsigned(&[0x03, 0x01, 0x01], 0).unwrap().0,
        (0x03u64 >> 3) | (1 << 5) | (1 << 13)
    );
    assert_eq!(decode_unsigned(&[0x1F, 0xEF, 0xBE, 0xAD, 0xDE], 0).unwrap(), (0xDEADBEEF, 5));
    assert_eq!(decode_unsigned(&[0x1F, 0xEF], 0), None);
    assert_eq!(decode_unsigned(&[], 0), None);
}

fn one_pixel_png() -> Vec<u8> {
    let mut b = Vec::new();
    let mut enc = png::Encoder::new(std::io::Cursor::new(&mut b), 1, 1);
    enc.set_color(png::ColorType::Rgba);
    enc.set_depth(png::BitDepth::Eight);
    enc.write_header().unwrap().write_image_data(&[9, 9, 9, 255]).unwrap();
    b
}

/// An image of a program with two resources, and the first resource.
fn synthetic_exe() -> (Vec<u8>, Vec<u8>) {
    let png = one_pixel_png();
    let colorset = b"#ffffff\n#a2e0ff\n#a2e0ff\n".to_vec();
    let mut blob = Vec::new();
    let png_off = blob.len() as u64;
    blob.extend_from_slice(&png);
    let cs_off = blob.len() as u64;
    blob.extend_from_slice(&colorset);
    let mut exe = vec![0xAAu8; 64];
    for (name, off, size) in [
        ("Rhythia.Resources.Textures.Game.notes.square 3.png", png_off, png.len() as u64),
        ("Rhythia.Resources.Textures.Game.colorsets.Arctic.txt", cs_off, colorset.len() as u64),
    ] {
        exe.extend_from_slice(&encode_unsigned(name.len() as u64));
        exe.extend_from_slice(name.as_bytes());
        exe.extend_from_slice(&encode_unsigned(off));
        exe.extend_from_slice(&encode_unsigned(size));
        exe.push(0xBB);
    }
    exe.extend_from_slice(&[0xCC; 32]);
    exe.extend_from_slice(&blob);
    (exe, png)
}

#[test]
fn synthetic_exe_extracts() {
    let (exe, png) = synthetic_exe();
    let entries = scan_entries(&exe);
    assert_eq!(entries.len(), 2, "{entries:?}");
    let base = locate_blob_base(&exe, &entries).expect("base found");
    let x = plan_extraction(&exe, base, &entries);
    assert_eq!(x.files.len() + x.colorsets.len(), 2);
    assert_eq!(x.refusal, None);
    let f = &x.files[0];
    assert_eq!((f.category.as_str(), f.file.as_str()), ("notes", "square 3.png"));
    assert_eq!(&exe[f.start..f.start + f.len], &png[..]);
    assert_eq!(x.colorsets[0].name, "Arctic");
    assert!(x.colorsets[0].colors.contains(&"#a2e0ff".to_string()));
    assert_eq!(extract(&exe).files.len(), 1);
}

#[test]
fn unusable_programs_are_refused() {
    assert_eq!(extract(b"nothing here").refusal, Some(Refusal::NoResources));
    let (mut exe, _) = synthetic_exe();
    let at = find(&exe, b"\x89PNG", 0).unwrap();
    exe[at] = 0;
    assert_eq!(extract(&exe).refusal, Some(Refusal::NoData));
    for r in [
        Refusal::NoResources,
        Refusal::NoData,
        Refusal::TooLarge,
        Refusal::TooManyColors,
        Refusal::NothingUsable,
    ] {
        assert!(!r.message().is_empty());
    }
}

#[test]
fn resources_are_routed_by_name() {
    assert_eq!(
        route_name("Rhythia.Resources.Textures.Game.notes.square 3.png"),
        Some(("notes".to_string(), "square 3.png".to_string()))
    );
    assert_eq!(route_name("Other.Resources.x.png"), None);
    assert!(sane_component("square 3.png"));
    assert!(!sane_component(".."));
    assert!(!sane_component("a/b"));
    assert!(!sane_component(""));
    assert_eq!(colors_in("#ffffff\n #a2e0ff \n"), vec!["#ffffff", "#a2e0ff"]);
}

#[test]
fn parses_a_quad_into_two_triangles() {
    let obj = "v -1 -1 0\nv 1 -1 0\nv 1 1 0\nv -1 1 0\nf 1 2 3 4\n";
    let m = Mesh::from_obj_str(obj).unwrap();
    assert_eq!(m.vertices.len(), 4);
    assert_eq!(m.indices.len(), 6);
}

#[test]
fn resolves_negative_indices() {
    let obj = "v 0 0 0\nv 1 0 0\nv 0 1 0\nf -3 -2 -1\n";
    let m = Mesh::from_obj_str(obj).unwrap();
    assert_eq!(m.indices, vec![0, 1, 2]);
}

#[test]
fn ignores_normals_and_uvs_in_face_refs() {
    let obj = "v 0 0 0\nv 1 0 0\nv 0 1 0\nf 1/1/1 2/2/2 3/3/3\n";
    let m = Mesh::from_obj_str(obj).unwrap();
    assert_eq!(m.indices, vec![0, 1, 2]);
}

#[test]
fn empty_or_garbage_errors() {
    assert!(Mesh::from_obj_str("").is_err());
    assert!(Mesh::from_obj_str("# just a comment\n").is_err());
    assert!(matches!(Mesh::from_obj_str(""), Err(Error::BadObj)));
    assert!(Mesh::from_obj_str("v 0 0 0\nf 1 2 9\n").is_err());
}

#[test]
fn meshes_have_an_extent() {
    let m = Mesh::from_obj_str("v -2 -1 0\nv 2 -1 0\nv 2 1 3\nf 1 2 3\n").unwrap();
    let mut p = m.points().unwrap();
    assert_eq!(
        bounds(&p),
        (
            Point { x: micro(-2.0), y: micro(-1.0), z: 0 },
            Point { x: micro(2.0), y: micro(1.0), z: micro(3.0) }
        )
    );
    assert_eq!(xy_half_extent(&p), micro(2.0) as i128);
    normalize_xy(&mut p);
    assert_eq!((p[0].x, p[0].y), (micro(-1.0), micro(-0.5)));
    let q = Mesh::quad();
    assert_eq!((q.vertices.len(), q.indices.len()), (4, 6));
}

#[test]
fn errors_say_what_went_wrong() {
    assert!(Error::NoAdapter.message().len() > 3);
    assert!(Error::Device("lost".to_string()).message().contains("lost"));
    assert!(Error::Png("bad".to_string()).message().contains("bad"));
    assert!(Error::Ffmpeg("gone".to_string()).message().contains("gone"));
    assert!(Error::GhostRun("other".to_string()).message().contains("other"));
    assert!(Error::Io("disk".to_string()).message().contains("disk"));
    assert_ne!(Error::Cancelled.message(), Error::BadObj.message());
}
