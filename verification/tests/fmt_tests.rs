use mpv_ne::fmt::{
    bookmark_label, build_info_line, channels_label, display_key, fmt_age, fmt_age_at, fmt_duration, fmt_meta,
    fmt_resolution, fmt_size, format_time, is_hdr, short_codec, trunc, truncate,
};

/// The size text computed the way the interface did it, through `f64`.
fn size_via_float(bytes: u64) -> String {
    if bytes >= 1_073_741_824 {
        format!("{:.1} GB", bytes as f64 / 1_073_741_824.0)
    } else if bytes >= 1_048_576 {
        format!("{:.0} MB", bytes as f64 / 1_048_576.0)
    } else if bytes >= 1024 {
        format!("{:.0} KB", bytes as f64 / 1024.0)
    } else {
        format!("{bytes} B")
    }
}

#[test]
fn fmt_size_units() {
    assert_eq!(fmt_size(0), "0 B");
    assert_eq!(fmt_size(1023), "1023 B");
    assert_eq!(fmt_size(1024), "1 KB");
    assert_eq!(fmt_size(1536), "2 KB");
    assert_eq!(fmt_size(2560), "2 KB");
    assert_eq!(fmt_size(1_048_575), "1024 KB");
    assert_eq!(fmt_size(1_048_576), "1 MB");
    assert_eq!(fmt_size(734_003_200), "700 MB");
    assert_eq!(fmt_size(1_073_741_824), "1.0 GB");
    assert_eq!(fmt_size(1_610_612_736), "1.5 GB");
    assert_eq!(fmt_size(u64::MAX), "17179869184.0 GB");
}

#[test]
fn fmt_size_agrees_with_float_formatting() {
    let mut samples: Vec<u64> = vec![
        1_342_177_280,
        1_449_551_462,
        3_221_225_472,
        (1u64 << 53) - 1,
        1u64 << 53,
        (1u64 << 53) + 1,
        (1u64 << 60) + 12345,
        u64::MAX - 1,
    ];
    for k in 0..64u64 {
        samples.push(1u64 << k);
        samples.push((1u64 << k).wrapping_sub(1));
        samples.push((1u64 << k) + (1u64 << k) / 2);
    }
    for t in 0..200u64 {
        samples.push(1_073_741_824 + t * 53_687_091);
        samples.push(1024 * t + 512);
        samples.push(1_048_576 * t + 524_288);
    }
    let mut x: u64 = 0x1234_5678_9abc_def0;
    for _ in 0..5000 {
        x = x.wrapping_mul(6364136223846793005).wrapping_add(1442695040888963407);
        samples.push(x >> (x % 64));
    }
    for b in samples {
        assert_eq!(fmt_size(b), size_via_float(b), "bytes = {b}");
    }
}

#[test]
fn fmt_resolution_classes() {
    assert_eq!(fmt_resolution(640, 480), "640\u{d7}480 SD");
    assert_eq!(fmt_resolution(1280, 720), "1280\u{d7}720 HD");
    assert_eq!(fmt_resolution(1920, 1080), "1920\u{d7}1080 FHD");
    assert_eq!(fmt_resolution(2560, 1440), "2560\u{d7}1440 2K");
    assert_eq!(fmt_resolution(3840, 2160), "3840\u{d7}2160 4K");
    assert_eq!(fmt_resolution(7680, 4320), "7680\u{d7}4320 8K");
    assert_eq!(fmt_resolution(0, 481), "0\u{d7}481 HD");
}

#[test]
fn fmt_duration_shapes() {
    assert_eq!(fmt_duration(0), "0:00");
    assert_eq!(fmt_duration(59), "0:59");
    assert_eq!(fmt_duration(61), "1:01");
    assert_eq!(fmt_duration(3599), "59:59");
    assert_eq!(fmt_duration(3600), "1:00:00");
    assert_eq!(fmt_duration(3725), "1:02:05");
    assert_eq!(fmt_duration(360_000), "100:00:00");
}

#[test]
fn format_time_shapes() {
    assert_eq!(format_time(0), "00:00");
    assert_eq!(format_time(65), "01:05");
    assert_eq!(format_time(3600), "01:00:00");
    assert_eq!(format_time(45_296), "12:34:56");
}

#[test]
fn fmt_age_thresholds() {
    let now = 10_000_000_000u64;
    assert_eq!(fmt_age_at(now, now), "just now");
    assert_eq!(fmt_age_at(now + 500, now), "just now");
    assert_eq!(fmt_age_at(now - 59, now), "just now");
    assert_eq!(fmt_age_at(now - 60, now), "1 min ago");
    assert_eq!(fmt_age_at(now - 3599, now), "59 min ago");
    assert_eq!(fmt_age_at(now - 3600, now), "1 hr ago");
    assert_eq!(fmt_age_at(now - 86_399, now), "23 hr ago");
    assert_eq!(fmt_age_at(now - 86_400, now), "1 days ago");
    assert_eq!(fmt_age_at(now - 86_400 * 7, now), "1 wk ago");
    assert_eq!(fmt_age_at(now - 86_400 * 29, now), "4 wk ago");
    assert_eq!(fmt_age_at(now - 86_400 * 30, now), "1 mo ago");
    assert_eq!(fmt_age_at(now - 86_400 * 364, now), "12 mo ago");
    assert_eq!(fmt_age_at(now - 86_400 * 365, now), "1 yr ago");
    assert_eq!(fmt_age_at(0, 86_400 * 365 * 3), "3 yr ago");
}

#[test]
fn fmt_age_of_now_is_recent() {
    let now = std::time::SystemTime::now()
        .duration_since(std::time::UNIX_EPOCH)
        .unwrap()
        .as_secs();
    assert_eq!(fmt_age(now + 10), "just now");
    assert_eq!(fmt_age(now - 7200), "2 hr ago");
}

#[test]
fn trunc_cuts_with_ellipsis() {
    assert_eq!(trunc("short", 10), "short");
    assert_eq!(trunc("exactly10!", 10), "exactly10!");
    assert_eq!(trunc("a longer title", 6), "a lon\u{2026}");
    assert_eq!(trunc("\u{e9}\u{e9}\u{e9}\u{e9}", 3), "\u{e9}\u{e9}\u{2026}");
    assert_eq!(trunc("abc", 0), "\u{2026}");
}

#[test]
fn truncate_appends_dots() {
    assert_eq!(truncate("hello", 5), "hello");
    assert_eq!(truncate("hello!", 5), "hello...");
    assert_eq!(truncate("", 0), "");
    assert_eq!(truncate("x", 0), "...");
}

#[test]
fn channels_label_names() {
    assert_eq!(channels_label(0), "");
    assert_eq!(channels_label(1), "mono");
    assert_eq!(channels_label(2), "stereo");
    assert_eq!(channels_label(6), "5.1");
    assert_eq!(channels_label(8), "7.1");
    assert_eq!(channels_label(3), "3ch");
    assert_eq!(channels_label(-4), "-4ch");
}

#[test]
fn hdr_detection() {
    assert!(is_hdr("bt.2020"));
    assert!(is_hdr("BT2020"));
    assert!(is_hdr("xx-Bt.2020-ncl"));
    assert!(!is_hdr("bt.709"));
    assert!(!is_hdr(""));
}

#[test]
fn short_codec_names() {
    assert_eq!(short_codec("h264 (High)"), "H264");
    assert_eq!(short_codec("  hevc / main 10"), "HEVC");
    assert_eq!(short_codec("aac"), "AAC");
    assert_eq!(short_codec("stra\u{df}e"), "STRASSE");
    assert_eq!(short_codec("(x)"), "");
}

#[test]
fn info_line_parts() {
    let line = build_info_line(1920, 1080, "h264 (High)", "bt.2020", "aac", 2, "d3d11va");
    assert_eq!(line, "1920\u{d7}1080  \u{b7}  H264  \u{b7}  HDR  \u{b7}  AAC stereo  \u{b7}  HW d3d11va");
    assert_eq!(build_info_line(0, 0, "", "", "opus", 0, "no"), "OPUS  \u{b7}  SW decode");
    assert_eq!(build_info_line(0, 1080, "", "", "", 0, ""), "");
}

#[test]
fn display_key_names() {
    assert_eq!(display_key("space"), "Space");
    assert_eq!(display_key("left"), "\u{2190}");
    assert_eq!(display_key("right"), "\u{2192}");
    assert_eq!(display_key("up"), "\u{2191}");
    assert_eq!(display_key("down"), "\u{2193}");
    assert_eq!(display_key("pageup"), "Page Up");
    assert_eq!(display_key("pagedown"), "Page Down");
    assert_eq!(display_key("\\"), "\\");
    assert_eq!(display_key("m"), "M");
    assert_eq!(display_key("#"), "#");
    assert_eq!(display_key("escape"), "Escape");
    assert_eq!(display_key("\u{e9}t\u{e9}"), "\u{c9}t\u{e9}");
    assert_eq!(display_key(""), "");
}

#[test]
fn meta_line_joins_known_parts() {
    assert_eq!(fmt_meta(Some(1_610_612_736), Some(3725), Some((1920, 1080))), "1.5 GB  1:02:05  1920\u{d7}1080 FHD");
    assert_eq!(fmt_meta(None, Some(61), None), "1:01");
    assert_eq!(fmt_meta(Some(10), None, Some((640, 360))), "10 B  640\u{d7}360 SD");
    assert_eq!(fmt_meta(None, None, None), "");
}

#[test]
fn bookmark_labels() {
    assert_eq!(bookmark_label(0), "00:00");
    assert_eq!(bookmark_label(65), "01:05");
    assert_eq!(bookmark_label(3599), "59:59");
    assert_eq!(bookmark_label(3600), "1:00:00");
    assert_eq!(bookmark_label(36_061), "10:01:01");
}
