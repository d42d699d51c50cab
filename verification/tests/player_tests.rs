use mpv_ne::player::{
    hflip_filter, vflip_filter, VfChain,
    aspect_value, audio_tracks, clamp_eq, clamp_sub_font_size, clamp_sub_pos, eq_is_default,
    hwdec_toggle_target, loop_flag, nearest_thumbnail_key, parse_track_id, rotate_ccw, rotate_cw,
    rotate_filter, sub_tracks, track_id_value, track_label, RotateFilter, TrackInfo,
};

fn info(kind: Option<&str>, id: i64, lang: Option<&str>, title: Option<&str>) -> TrackInfo {
    TrackInfo {
        kind: kind.map(|s| s.to_string()),
        id,
        lang: lang.map(|s| s.to_string()),
        title: title.map(|s| s.to_string()),
    }
}

#[test]
fn track_labels() {
    assert_eq!(track_label(1, &Some("eng".into()), &Some("SDH".into())), "eng  (SDH)");
    assert_eq!(track_label(2, &Some("jpn".into()), &None), "jpn");
    assert_eq!(track_label(3, &None, &Some("Commentary".into())), "Commentary");
    assert_eq!(track_label(4, &None, &None), "Track 4");
}

#[test]
fn track_lists_start_with_off() {
    let list = vec![
        info(Some("video"), 1, None, None),
        info(Some("audio"), 1, Some("eng"), None),
        info(Some("sub"), 1, None, Some("Forced")),
        info(Some("audio"), 2, None, None),
        info(None, 9, None, None),
        info(Some("sub"), 2, Some("fre"), Some("Full")),
    ];
    let subs = sub_tracks(&list);
    let s: Vec<(i64, String)> = subs.iter().map(|t| (t.id, t.label.clone())).collect();
    assert_eq!(s, vec![(0, "Off".to_string()), (1, "Forced".to_string()), (2, "fre  (Full)".to_string())]);
    let auds = audio_tracks(&list);
    let a: Vec<(i64, String)> = auds.iter().map(|t| (t.id, t.label.clone())).collect();
    assert_eq!(a, vec![(0, "Off".to_string()), (1, "eng".to_string()), (2, "Track 2".to_string())]);
    assert_eq!(sub_tracks(&Vec::new()).len(), 1);
}

#[test]
fn track_id_values() {
    assert_eq!(track_id_value(0), "no");
    assert_eq!(track_id_value(-3), "no");
    assert_eq!(track_id_value(12), "12");
    assert_eq!(parse_track_id(Some("no")), 0);
    assert_eq!(parse_track_id(Some("3")), 3);
    assert_eq!(parse_track_id(Some("+7")), 7);
    assert_eq!(parse_track_id(Some("-2")), -2);
    assert_eq!(parse_track_id(Some("9223372036854775807")), i64::MAX);
    assert_eq!(parse_track_id(Some("-9223372036854775808")), i64::MIN);
    assert_eq!(parse_track_id(Some("9223372036854775808")), 0);
    assert_eq!(parse_track_id(Some("")), 0);
    assert_eq!(parse_track_id(None), 0);
}

#[test]
fn loop_and_hwdec_values() {
    assert!(loop_flag(Some("inf")));
    assert!(loop_flag(Some("yes")));
    assert!(!loop_flag(Some("no")));
    assert!(!loop_flag(None));
    assert_eq!(hwdec_toggle_target("no"), "auto-copy-safe");
    assert_eq!(hwdec_toggle_target(""), "auto-copy-safe");
    assert_eq!(hwdec_toggle_target("d3d11va"), "no");
    assert_eq!(aspect_value(""), "-1");
    assert_eq!(aspect_value("16:9"), "16:9");
}

#[test]
fn rotation_filters() {
    assert!(matches!(rotate_filter(0), RotateFilter::Clear));
    match rotate_filter(90) {
        RotateFilter::Install(s) => assert_eq!(s, "@mpvne_rotate:lavfi=[transpose=1]"),
        _ => panic!("expected a filter"),
    }
    match rotate_filter(-180) {
        RotateFilter::Install(s) => assert_eq!(s, "@mpvne_rotate:lavfi=[transpose=1,transpose=1]"),
        _ => panic!("expected a filter"),
    }
    match rotate_filter(630) {
        RotateFilter::Install(s) => assert_eq!(s, "@mpvne_rotate:lavfi=[transpose=2]"),
        _ => panic!("expected a filter"),
    }
    assert!(matches!(rotate_filter(360), RotateFilter::Clear));
    assert!(matches!(rotate_filter(-360), RotateFilter::Clear));
    assert!(matches!(rotate_filter(720), RotateFilter::Clear));
    assert!(matches!(rotate_filter(45), RotateFilter::Keep));
}

#[test]
fn rotation_steps() {
    assert_eq!(rotate_cw(0), 90);
    assert_eq!(rotate_cw(270), 0);
    assert_eq!(rotate_ccw(0), 270);
    assert_eq!(rotate_ccw(90), 0);
    assert_eq!(rotate_ccw(-450), 180);
}

#[test]
fn clamps() {
    assert_eq!(clamp_sub_font_size(5), 10);
    assert_eq!(clamp_sub_font_size(55), 55);
    assert_eq!(clamp_sub_font_size(500), 200);
    assert_eq!(clamp_sub_pos(-1), 0);
    assert_eq!(clamp_sub_pos(151), 150);
    assert_eq!(clamp_eq(-101), -100);
    assert_eq!(clamp_eq(42), 42);
    assert_eq!(clamp_eq(i64::MAX), 100);
    assert!(eq_is_default(0, 0, 0, 0, 0));
    assert!(!eq_is_default(0, 0, 1, 0, 0));
}

#[test]
fn nearest_thumbnail() {
    let keys = vec![0u32, 10, 20, 30];
    assert_eq!(nearest_thumbnail_key(&keys, 0), Some(0));
    assert_eq!(nearest_thumbnail_key(&keys, 4), Some(0));
    assert_eq!(nearest_thumbnail_key(&keys, 5), Some(0));
    assert_eq!(nearest_thumbnail_key(&keys, 6), Some(10));
    assert_eq!(nearest_thumbnail_key(&keys, 25), Some(20));
    assert_eq!(nearest_thumbnail_key(&keys, 99), Some(30));
    assert_eq!(nearest_thumbnail_key(&vec![50], 3), Some(50));
    assert_eq!(nearest_thumbnail_key(&Vec::new(), 3), None);
}

#[test]
fn filter_chain_install_replace_remove() {
    let mut c = VfChain::new();
    assert_eq!(c.command(), "vf clr");
    c.set("rotate", Some("@mpvne_rotate:lavfi=[transpose=1]".to_string()));
    c.set("hflip", hflip_filter(true));
    assert_eq!(
        c.command(),
        "vf set @mpvne_rotate:lavfi=[transpose=1],@mpvne_hflip:lavfi=[hflip]"
    );
    // Replacing keeps the label's place in the chain.
    c.set("rotate", Some("@mpvne_rotate:lavfi=[transpose=2]".to_string()));
    assert_eq!(
        c.command(),
        "vf set @mpvne_rotate:lavfi=[transpose=2],@mpvne_hflip:lavfi=[hflip]"
    );
    c.set("rotate", None);
    c.set("vflip", vflip_filter(false));
    assert_eq!(c.command(), "vf set @mpvne_hflip:lavfi=[hflip]");
    c.set("hflip", hflip_filter(false));
    assert_eq!(c.command(), "vf clr");
    c.set("vflip", vflip_filter(true));
    c.clear();
    assert_eq!(c.command(), "vf clr");
}
