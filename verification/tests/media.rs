use rhythr::audio::{hitsound_plan, wav_bytes, Clip};
use rhythr::background::{
    apply_background, clamp_cover_offset, classify_bytes, cover_layer, cover_vf, decode_head_args,
    decode_rate, decode_tail_args, image_decodes, parse_ffmpeg_duration, parse_ffmpeg_fps,
    preview_time, sync_offset, BackgroundKind, BackgroundOptions, Need, Pacer, VideoDecoder,
};
use rhythr::config::SkinConfig;
use rhythr::encoder::{
    amf_quality, encoder_error, encoder_probe, encoder_works, explain, hardware_encoders,
    is_render_node, last_meaningful_line, no_device_error, nvenc_preset, qsv_preset,
    tcp_feed_works, vaapi_icq_supported, vaapi_probe, video_encoder_args, Probe, ProbeCache, Trial,
};
use rhythr::error::Error;
use rhythr::fixed::ONE;
use rhythr::hitreg::NoteResult;
use rhythr::log::{FfmpegLog, KEEP};
use rhythr::replay::Replay;
use rhythr::video::{
    check_ghost, ffmpeg_args, partial_name, per_frame, plan_clip, transport_used, Arg, EncodeJob,
    Pipeline, RenderStats, Step, VideoOptions,
};

fn micro(v: f64) -> i64 {
    (v * 1e6).round() as i64
}

fn tiny_wav(rate: u32, channels: u16, frames: &[i16]) -> Vec<u8> {
    let data_len = (frames.len() * 2) as u32;
    let mut w = Vec::new();
    w.extend_from_slice(b"RIFF");
    w.extend_from_slice(&(36 + data_len).to_le_bytes());
    w.extend_from_slice(b"WAVEfmt ");
    w.extend_from_slice(&16u32.to_le_bytes());
    w.extend_from_slice(&1u16.to_le_bytes());
    w.extend_from_slice(&channels.to_le_bytes());
    w.extend_from_slice(&rate.to_le_bytes());
    w.extend_from_slice(&(rate * channels as u32 * 2).to_le_bytes());
    w.extend_from_slice(&(channels * 2).to_le_bytes());
    w.extend_from_slice(&16u16.to_le_bytes());
    w.extend_from_slice(b"data");
    w.extend_from_slice(&data_len.to_le_bytes());
    for f in frames {
        w.extend_from_slice(&f.to_le_bytes());
    }
    w
}

fn hit(i: usize, ms: f64) -> NoteResult {
    NoteResult { note_index: i, hit: true, hit_ms: Some(micro(ms)) }
}

fn miss(i: usize) -> NoteResult {
    NoteResult { note_index: i, hit: false, hit_ms: None }
}

#[test]
fn wav_roundtrip_and_mix() {
    let clip = Clip::from_wav(&tiny_wav(44_100, 1, &[16384, 16384])).expect("parses");
    assert_eq!(clip.samples.len(), 4);
    let plan = hitsound_plan(
        false,
        &[hit(0, 100.0), miss(1)],
        &[micro(100.0), micro(200.0)],
        0,
        micro(1000.0),
        ONE,
        ONE,
    )
    .expect("has sound");
    // The hit at 100 ms sounds at frame 4410, and nothing else does.
    assert_eq!(plan.events.len(), 1);
    assert_eq!(plan.events[0].frame, 4410);
    assert!(!plan.events[0].miss);
    let wav = wav_bytes(&clip.samples);
    assert_eq!(&wav[0..4], b"RIFF");
}

#[test]
fn miss_sound_respects_combo_threshold() {
    let mut results: Vec<NoteResult> = (0..3).map(|i| hit(i, 10.0 + i as f64)).collect();
    results.push(miss(3));
    let times: Vec<i64> = (0..4).map(|i| micro(10.0 + i as f64)).collect();
    let plan = hitsound_plan(true, &results, &times, micro(500.0), micro(1000.0), ONE, ONE);
    assert!(plan.is_none(), "no hits in window and miss below threshold");

    let plan =
        hitsound_plan(false, &[hit(0, 400.0)], &[micro(400.0)], 0, micro(1000.0), 2 * ONE, ONE)
            .expect("has sound");
    assert_eq!(plan.events.len(), 1);
    assert_eq!(plan.events[0].frame, 8820, "hit at half the song time");
}

#[test]
fn a_broken_streak_sounds() {
    let mut results: Vec<NoteResult> = (0..5).map(|i| hit(i, 10.0 + i as f64)).collect();
    results.push(miss(5));
    let times: Vec<i64> = (0..6).map(|i| micro(10.0 + i as f64)).collect();
    let plan = hitsound_plan(true, &results, &times, 0, micro(1000.0), ONE, ONE).unwrap();
    assert_eq!(plan.events.iter().filter(|e| e.miss).count(), 1);
    assert!(plan.events.iter().all(|e| e.frame < plan.frames));
}

#[test]
fn waves_are_read_back() {
    let samples = vec![1i16, -2, 300, -32768];
    assert_eq!(Clip::from_wav(&wav_bytes(&samples)).unwrap().samples, samples);
    assert!(Clip::from_wav(b"RIFFxxxxWAVE").is_none());
    assert!(Clip::from_wav(&tiny_wav(44_100, 0, &[1])).is_none());
}

#[test]
fn reads_the_frame_rate_out_of_an_ffmpeg_probe() {
    let real = "  Duration: 00:00:12.00, start: 0.000000, bitrate: 6400 kb/s\n                    Stream #0:0: Video: h264, yuv420p, 1920x1080, 6397 kb/s, 30 fps, 30 tbr";
    assert_eq!(parse_ffmpeg_fps(real), Some(micro(30.0)));
    let ntsc = "Stream #0:0: Audio: aac, 48000 Hz\n                    Stream #0:1: Video: h264, 1280x720, 29.97 fps, 30 tbr";
    assert_eq!(parse_ffmpeg_fps(ntsc), Some(micro(29.97)));
    assert_eq!(parse_ffmpeg_fps("Duration: 00:00:01.00"), None);
    assert_eq!(parse_ffmpeg_fps(""), None);
}

#[test]
fn sync_offset_folds_into_loop_window() {
    let offset = |t: f64, s: f64, d: Option<f64>| sync_offset(micro(t), micro(s), d.map(micro));
    assert_eq!(offset(90.0, 0.0, Some(40.0)), micro(10.0));
    assert_eq!(offset(90.0, 5.0, Some(40.0)), micro(20.0));
    assert_eq!(offset(90.0, 0.0, None), 0);
    assert_eq!(offset(90.0, 39.99, Some(40.0)), 0);
    assert_eq!(offset(-3.0, 0.0, Some(40.0)), 0);
}

#[test]
fn images_are_recognised_by_content_not_extension() {
    assert_eq!(classify_bytes(b"\x89PNG\r\n\x1a\n........"), BackgroundKind::Image);
    assert_eq!(classify_bytes(b"\xff\xd8\xff\xe0....JFIF"), BackgroundKind::Image);
    assert_eq!(classify_bytes(b"RIFF\x00\x00\x00\x00WEBPVP8 "), BackgroundKind::Image);
    assert_eq!(classify_bytes(b"BM\x00\x00\x00\x00\x00\x00\x00\x00"), BackgroundKind::Image);
}

#[test]
fn gifs_and_unknown_containers_go_to_ffmpeg() {
    assert_eq!(classify_bytes(b"GIF89a\x00\x00\x00\x00"), BackgroundKind::Video);
    assert_eq!(classify_bytes(b"\x00\x00\x00\x20ftypisom...."), BackgroundKind::Video);
    assert_eq!(classify_bytes(b"\x1a\x45\xdf\xa3............"), BackgroundKind::Video);
    assert_eq!(classify_bytes(b"not a media file at all....."), BackgroundKind::Video);
}

#[test]
fn applying_a_background_replaces_skin_layers_and_sets_the_dim() {
    let img = b"\x89PNG\r\n\x1a\n....";
    let mut cfg = SkinConfig::default();
    cfg.background_images.push(cover_layer(vec![1], &BackgroundOptions::default()));
    let opts = BackgroundOptions {
        dim: micro(0.6),
        zoom: micro(1.5),
        offset: [micro(0.25), micro(-0.1)],
        ..Default::default()
    };
    let kind = classify_bytes(img);
    assert_eq!(kind, BackgroundKind::Image);
    apply_background(&mut cfg, kind, img.to_vec(), &opts);
    assert_eq!(cfg.background_images.len(), 1);
    assert!(!cfg.custom_bg_video);
    assert_eq!(cfg.custom_bg_dim, Some(micro(0.6)));
    let l = &cfg.background_images[0];
    assert_eq!((l.scale_x, l.scale_y), (micro(1.5), micro(1.5)));
    assert_eq!((l.center_x, l.center_y), (micro(0.75), micro(0.4)));

    let vid = b"\x00\x00\x00\x20ftypisom";
    let kind = classify_bytes(vid);
    assert_eq!(kind, BackgroundKind::Video);
    let opts = BackgroundOptions { dim: micro(1.5), ..Default::default() };
    apply_background(&mut cfg, kind, vid.to_vec(), &opts);
    assert!(cfg.background_images.is_empty());
    assert!(cfg.custom_bg_video);
    assert_eq!(cfg.custom_bg_dim, Some(micro(1.0)));
}

#[test]
fn cover_offset_clamps_to_the_available_overflow() {
    let clamp = |a: f64, b: f64, c: f64| clamp_cover_offset(micro(a), micro(b), micro(c));
    assert_eq!(clamp(20.0, 200.0, 100.0), micro(20.0));
    assert_eq!(clamp(80.0, 200.0, 100.0), micro(50.0));
    assert_eq!(clamp(-80.0, 200.0, 100.0), micro(-50.0));
    assert_eq!(clamp(30.0, 100.0, 100.0), 0);
}

#[test]
fn cover_filter_defaults_stay_plain_and_zoom_shift_clamp_in_expr() {
    assert_eq!(
        cover_vf(1920, 1080, &BackgroundOptions::default()),
        "scale=1920:1080:force_original_aspect_ratio=increase,crop=1920:1080:x='clip((iw-1920)/2-(0),0,iw-1920)':y='clip((ih-1080)/2-(0),0,ih-1080)'"
    );
    let opts = BackgroundOptions {
        zoom: micro(1.5),
        offset: [micro(0.25), micro(-0.1)],
        ..Default::default()
    };
    let f = cover_vf(1920, 1080, &opts);
    assert!(f.starts_with("scale=2880:1620:force_original_aspect_ratio=increase,crop=1920:1080:"));
    assert!(f.contains("x='clip((iw-1920)/2-(480),0,iw-1920)'"));
    assert!(f.contains("y='clip((ih-1080)/2-(-108),0,ih-1080)'"));
}

#[test]
fn duration_parses_from_the_ffmpeg_banner() {
    let banner = "Input #0, mov,mp4, from 'bg.mp4':\n  Duration: 00:01:23.45, start: 0.000000, bitrate: 3000 kb/s\n";
    assert_eq!(parse_ffmpeg_duration(banner), Some(micro(83.45)));
    assert_eq!(parse_ffmpeg_duration("  Duration: 01:02:03.50, start"), Some(micro(3723.5)));
    assert_eq!(parse_ffmpeg_duration("Duration: N/A, bitrate"), None);
    assert_eq!(parse_ffmpeg_duration("no banner here"), None);
}

#[test]
fn videos_are_decoded_at_their_own_rate() {
    assert_eq!(decode_rate(Some(micro(30.0)), 60), 30);
    assert_eq!(decode_rate(Some(micro(120.0)), 60), 60);
    assert_eq!(decode_rate(None, 60), 60);
    assert_eq!(preview_time(micro(3.0), 0, None), micro(3.0) as i128);
    assert!(decode_head_args(micro(5.0)).contains(&"-ss".to_string()));
    let tail = decode_tail_args(64, 32, 30, &BackgroundOptions::default());
    assert!(tail.iter().any(|a| a.contains("scale=64:32")));
}

#[test]
fn decoded_frames_are_looped_from_memory() {
    let mut d = VideoDecoder::new(4, &BackgroundOptions::default());
    assert_eq!(d.next(3), Need::Keep);
    assert_eq!(d.next(4), Need::Read);
    d.frame_read(&[1, 2, 3, 4]);
    assert_eq!(d.next(4), Need::Read);
    d.frame_read(&[5, 6, 7, 8]);
    assert_eq!(d.next(4), Need::Read);
    assert_eq!(d.read_failed(), Need::Recall(0));
    assert_eq!(d.next(4), Need::Recall(1));
    assert_eq!(d.next(4), Need::Recall(0));
    assert_eq!(d.loop_buf[0], vec![1, 2, 3, 4]);
}

#[test]
fn a_video_without_frames_ends() {
    let mut d = VideoDecoder::new(4, &BackgroundOptions::default());
    assert_eq!(d.next(4), Need::Read);
    assert_eq!(d.read_failed(), Need::Keep);
    assert_eq!(d.next(4), Need::Keep);
}

#[test]
fn slower_videos_are_paced() {
    let mut p = Pacer::new(30, 60);
    let due: Vec<bool> = (0..6).map(|_| p.due()).collect();
    assert_eq!(due, vec![true, false, true, false, true, false]);
    let mut film = Pacer::new(24, 60);
    let shown: Vec<bool> = (0..6).map(|_| film.due()).collect();
    assert_eq!(shown, vec![true, false, false, true, false, true]);
    let mut still = Pacer::new(0, 60);
    assert_eq!((0..3).map(|_| still.due()).collect::<Vec<bool>>(), vec![true, false, false]);
    let mut even = Pacer::new(60, 60);
    assert!((0..5).all(|_| even.due()));
}

#[test]
fn broken_pictures_do_not_decode() {
    assert!(!image_decodes(b"\x89PNG\r\n\x1a\n...."));
}

#[test]
fn encoders_get_their_own_settings() {
    let soft = video_encoder_args("x264", 70, "medium", false, false);
    assert!(soft.args.contains(&"libx264".to_string()));
    assert!(soft.args.contains(&"20".to_string()));
    let hard = video_encoder_args("nvenc", 70, "fast", false, false);
    assert!(hard.args.contains(&"23".to_string()));
    assert!(video_encoder_args("vaapi", 70, "fast", true, true).filter.contains("hwupload"));
    assert_ne!(amf_quality("ultrafast"), amf_quality("veryslow"));
    assert_ne!(nvenc_preset("ultrafast"), nvenc_preset("veryslow"));
    assert_ne!(qsv_preset("ultrafast"), qsv_preset("veryslow"));
    assert_ne!(hardware_encoders(true), hardware_encoders(false));
}

#[test]
fn failed_encoders_say_why() {
    assert_eq!(encoder_error(&Trial::Succeeded), None);
    assert!(encoder_error(&Trial::NotRun("no such file".to_string())).is_some());
    let failed = Trial::Failed(b"line\nUnknown encoder 'h264_x'\n".to_vec());
    assert!(encoder_error(&failed).is_some());
    assert!(encoder_works(&None));
    assert!(!encoder_works(&encoder_error(&failed)));
    assert!(!last_meaningful_line(b"").is_empty());
    assert!(last_meaningful_line(b"first\nsecond\n").contains("second"));
    assert!(!explain("Cannot load libcuda.so.1").is_empty());
    assert!(!no_device_error(&failed).is_empty());
    assert!(is_render_node("renderD128"));
    assert!(!is_render_node("card0"));
}

#[test]
fn encoders_are_tried() {
    assert!(matches!(encoder_probe("x264", None, false), Probe::Needless));
    assert!(matches!(encoder_probe("vaapi", None, false), Probe::NoDevice));
    match encoder_probe("nvenc", None, false) {
        Probe::Run(args) => assert!(args.contains(&"h264_nvenc".to_string())),
        _ => panic!("a hardware encoder is tried"),
    }
    assert!(vaapi_probe("/dev/dri/renderD128", true).contains(&"/dev/dri/renderD128".to_string()));
}

#[test]
fn answers_are_kept() {
    let mut cache = ProbeCache::new();
    assert_eq!(tcp_feed_works(&cache, "ffmpeg"), None);
    cache.remember("ffmpeg", true);
    cache.remember("other", false);
    assert_eq!(cache.recall("ffmpeg"), Some(true));
    assert_eq!(tcp_feed_works(&cache, "other"), Some(false));
    assert_eq!(vaapi_icq_supported(&cache, "ffmpeg", true), Some(true));
    assert_eq!(vaapi_icq_supported(&ProbeCache::new(), "ffmpeg", false), Some(false));
}

#[test]
fn the_log_keeps_the_last_lines() {
    let mut log = FfmpegLog::new();
    for i in 0..100 {
        log.note(&format!("line {i}"));
    }
    assert!(log.lines.len() <= KEEP);
    assert!(log.tail().contains("line 99"));
    assert!(!log.tail().contains("line 5\n"));
}

fn options() -> VideoOptions {
    VideoOptions {
        fps: 60,
        start_ms: 0,
        end_ms: micro(2000.0),
        results_secs: micro(1.0),
        ..Default::default()
    }
}

fn replay(speed: f64) -> Replay {
    Replay {
        timestamp_ticks: 0,
        player_name: String::new(),
        legacy_map_id: String::new(),
        map_id: 0,
        start_from_ms: 0,
        failed: false,
        mods: "[]".to_string(),
        speed: micro(speed),
        total_score: 0,
        accuracy_pct: 0,
        hits: 0,
        misses: 0,
        points: 0,
        fail_time_ms: -1,
        length_ms: micro(2000.0),
        frames: Vec::new(),
        trailing_bytes: 0,
    }
}

#[test]
fn clips_are_planned_in_frames() {
    let p = plan_clip(&options(), &replay(1.0));
    assert_eq!((p.play_frames, p.results_frames), (120, 60));
    assert_eq!(p.song_ms(60), micro(1000.0) as i128);
    let fast = plan_clip(&options(), &replay(2.0));
    assert_eq!(fast.play_frames, 60);
    assert_eq!(fast.song_ms(30), micro(1000.0) as i128);
}

#[test]
fn the_encoder_is_told_what_it_gets() {
    let opts = VideoOptions { audio: true, ..options() };
    let p = plan_clip(&opts, &replay(1.0));
    let job = EncodeJob {
        width: 640,
        height: 360,
        feed_nv12: false,
        port: None,
        vaapi_device: None,
        vaapi_icq: false,
        hitsounds: true,
    };
    let args = ffmpeg_args(&opts, &job, &p);
    let has = |t: &str| args.iter().any(|a| matches!(a, Arg::Text(s) if s == t));
    assert!(has("640x360"));
    assert!(has("pipe:0"));
    assert!(args.iter().any(|a| matches!(a, Arg::Hitsounds)));
    assert!(matches!(args.last(), Some(Arg::Output)));
    let nv12 = ffmpeg_args(&opts, &EncodeJob { feed_nv12: true, ..job }, &p);
    assert!(nv12.iter().any(|a| matches!(a, Arg::Text(s) if s == "nv12")));
}

#[test]
fn frames_come_in_order() {
    let mut p = Pipeline::new(5, 2);
    let (mut submitted, mut read, mut shown) = (0, 0, 0);
    for _ in 0..100 {
        match p.advance() {
            Step::Submit { frame, slot } => {
                assert_eq!((frame, slot), (submitted, submitted % 3));
                submitted += 1;
            }
            Step::Read { frame, slot } => {
                assert_eq!((frame, slot), (read, read % 3));
                read += 1;
                assert!(read <= submitted);
            }
            Step::Results { .. } => shown += 1,
            Step::Done => break,
        }
    }
    assert_eq!((submitted, read, shown), (5, 5, 2));
    assert_eq!((0..5).filter(|&i| p.counts(i)).collect::<Vec<u64>>(), vec![0, 1, 2]);
    assert!(!Pipeline::new(2, 0).counts(0));
    assert_eq!(p.written(), 7);
}

#[test]
fn ghosts_must_have_played_the_same_map() {
    assert!(check_ghost(micro(1.0), micro(1.0)).is_ok());
    assert!(matches!(check_ghost(micro(1.0), micro(1.5)), Err(Error::GhostRun(_))));
}

#[test]
fn figures_of_an_export() {
    assert_eq!(per_frame(2_000_000, 2), micro(1.0));
    assert_eq!(per_frame(5, 0), 5);
    assert_eq!(partial_name("clip.mp4"), "clip.rhythr-part.mp4");
    assert_ne!(transport_used(true, 0), transport_used(false, 0));
    let s = RenderStats {
        frames: 10,
        build_ms: micro(1.0),
        readback_ms: 0,
        convert_ms: 0,
        feed_ms: 0,
        discarded: false,
        transport: "pipe".to_string(),
    };
    assert!(s.summary().contains("pipe"));
}
