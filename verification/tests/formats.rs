use rhythr::nv12::{
    band_rows, convert_band, gpu_supported, luma, nv12_len, nv12_supported, rgba_to_nv12,
    rgba_to_nv12_banded,
};
use rhythr::quality::{describe, from_legacy_crf, hardware_q, x264_crf, DEFAULT, MAX, MIN};
use rhythr::transport::{
    benchmark, candidates, even_size, frame_source, keep_measuring, measure_args, pieces, rate,
    size_text, Benchmark, Measured, Transport,
};

#[test]
fn higher_quality_never_means_a_coarser_encode() {
    for q in MIN..MAX {
        assert!(x264_crf(q) >= x264_crf(q + 1), "crf rose from quality {q} to {}", q + 1);
        assert!(hardware_q(q) >= hardware_q(q + 1));
    }
}

#[test]
fn the_ends_and_the_default_are_where_they_are_documented() {
    assert_eq!(x264_crf(100), 14);
    assert_eq!(x264_crf(DEFAULT), 20);
    assert_eq!(x264_crf(0), 34);
    assert_eq!(hardware_q(DEFAULT), 23);
}

#[test]
fn out_of_range_input_is_clamped_rather_than_wrapping() {
    assert_eq!(x264_crf(u32::MAX), x264_crf(MAX));
    assert!(hardware_q(u32::MAX) <= 51);
}

#[test]
fn a_saved_setting_survives_the_inversion() {
    for crf in 14..=30u32 {
        assert_eq!(x264_crf(from_legacy_crf(crf)), crf, "legacy crf {crf} did not survive");
    }
}

#[test]
fn legacy_values_off_the_old_slider_still_land_in_range() {
    assert_eq!(from_legacy_crf(0), MAX);
    assert_eq!(from_legacy_crf(51), MIN);
}

#[test]
fn qualities_have_names() {
    assert_ne!(describe(0), describe(100));
    assert_eq!(describe(MAX), describe(u32::MAX));
}

#[test]
fn labels_say_what_was_used() {
    assert_eq!(Transport::Pipe.label(), "pipe");
    assert_eq!(Transport::Socket(0).label(), "socket, whole frame");
    assert_eq!(Transport::Socket(256 * 1024).label(), "socket, 256 KiB");
    assert_eq!(Transport::Socket(1024 * 1024).label(), "socket, 1 MiB");
    assert_eq!(Transport::Socket(1000).label(), "socket, 1000 B");
}

#[test]
fn no_candidate_writes_a_socket_in_small_pieces() {
    for c in candidates() {
        if let Transport::Socket(n) = c {
            assert!(n == 0 || n >= 64 * 1024, "candidate {} is too small", c.label());
        }
    }
}

#[test]
fn the_summary_names_the_winner_and_what_it_beat() {
    let b = Benchmark {
        width: 3840,
        height: 2160,
        results: vec![
            Measured { transport: Transport::Pipe, fps: Some(170_000_000) },
            Measured { transport: Transport::Socket(256 * 1024), fps: Some(245_000_000) },
        ],
        best: Some(Transport::Socket(256 * 1024)),
    };
    let s = b.summary();
    assert!(s.contains("256 KiB"), "{s}");
    assert!(s.contains("245"), "{s}");
    assert!(s.contains("+44%"), "{s}");
}

#[test]
fn a_run_where_nothing_worked_says_so_instead_of_choosing() {
    let b = Benchmark {
        width: 1920,
        height: 1080,
        results: vec![Measured { transport: Transport::Pipe, fps: None }],
        best: None,
    };
    assert!(b.summary().contains("leaving the setting alone"));
}

#[test]
fn the_fastest_transport_is_chosen() {
    let results = vec![
        Measured { transport: Transport::Pipe, fps: Some(1) },
        Measured { transport: Transport::Socket(0), fps: None },
        Measured { transport: Transport::Socket(65_536), fps: Some(9) },
    ];
    let b = benchmark(8, 6, results);
    assert!(matches!(b.best, Some(Transport::Socket(65_536))));
    assert_eq!((b.width, b.height), (8, 6));
}

#[test]
fn pieces_make_up_the_frame() {
    assert_eq!(pieces(10, 4), vec![(0, 4), (4, 8), (8, 10)]);
    assert_eq!(pieces(8, 4), vec![(0, 4), (4, 8)]);
    assert_eq!(pieces(5, 100), vec![(0, 5)]);
}

#[test]
fn measuring_has_a_limit() {
    assert!(keep_measuring(0, 0));
    assert!(!keep_measuring(u64::MAX, u64::MAX));
    assert_eq!(rate(100, 1_000_000_000), Some(100_000_000));
    assert_eq!(even_size(7), 6);
    assert_eq!(even_size(8), 8);
    assert_eq!(frame_source(None), "pipe:0");
    assert_eq!(frame_source(Some(4000)), "tcp://127.0.0.1:4000");
    assert_eq!(size_text(1920, 1080), "1920x1080");
    assert!(measure_args(64, 32, None).contains(&"pipe:0".to_string()));
}

fn solid(w: usize, h: usize, rgb: [u8; 3]) -> Vec<u8> {
    let mut v = Vec::new();
    for _ in 0..w * h {
        v.extend_from_slice(&[rgb[0], rgb[1], rgb[2], 255]);
    }
    v
}

#[test]
fn luma_matches_what_ffmpeg_produced() {
    let cases = [
        ([255, 0, 0], 81u8),
        ([0, 255, 0], 145),
        ([0, 0, 255], 41),
        ([255, 255, 255], 235),
        ([0, 0, 0], 16),
    ];
    for (rgb, expect) in cases {
        let src = solid(4, 2, rgb);
        let mut dst = vec![0u8; nv12_len(4, 2)];
        assert!(rgba_to_nv12(&src, 4, 2, &mut dst));
        for (i, got) in dst[..8].iter().enumerate() {
            assert_eq!(*got, expect, "{rgb:?} pixel {i}");
        }
    }
    assert_eq!(luma(255, 0, 0), 81);
}

#[test]
fn grey_stays_neutral() {
    let src = solid(4, 2, [128, 128, 128]);
    let mut dst = vec![0u8; nv12_len(4, 2)];
    assert!(rgba_to_nv12(&src, 4, 2, &mut dst));
    for b in &dst[8..] {
        assert_eq!(*b, 128);
    }
}

#[test]
fn banding_across_threads_changes_nothing() {
    let (w, h) = (64usize, 64usize);
    let mut src = Vec::with_capacity(w * h * 4);
    for i in 0..w * h {
        let v = (i % 251) as u8;
        src.extend_from_slice(&[v, v.wrapping_mul(3), v.wrapping_add(97), 255]);
    }
    let mut threaded = vec![0u8; nv12_len(w, h)];
    assert!(rgba_to_nv12_banded(&src, w, h, 8, &mut threaded));

    let mut single = vec![0u8; nv12_len(w, h)];
    let (y, uv) = single.split_at_mut(w * h);
    convert_band(&src, w, h, y, uv);
    assert_eq!(threaded, single);

    let mut whole = vec![0u8; nv12_len(w, h)];
    assert!(rgba_to_nv12(&src, w, h, &mut whole));
    assert_eq!(whole, single);
    assert_eq!(band_rows(64, 8) % 2, 0);
}

#[test]
fn odd_sizes_are_refused_rather_than_mangled() {
    assert!(!nv12_supported(63, 64));
    assert!(!nv12_supported(64, 63));
    assert!(nv12_supported(1920, 1080));
    assert!(nv12_supported(1080, 1920));
    let src = solid(4, 2, [10, 20, 30]);
    let mut small = vec![0u8; 4];
    assert!(!rgba_to_nv12(&src, 4, 2, &mut small));
}

#[test]
fn unaddressable_sizes_are_refused() {
    assert!(gpu_supported(1920, 1080));
    assert!(gpu_supported(3840, 2160));
    assert!(gpu_supported(1080, 1920));
    assert!(!gpu_supported(1918, 1080), "width not a multiple of four");
    assert!(!gpu_supported(1920, 1079), "odd height has no chroma row");
}
