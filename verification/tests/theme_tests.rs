use mpv_ne::theme::{
    active_theme, custom_slot, export_custom, logo_stops, palette_slot, parse_custom_palette,
    parse_hex, set_custom_palette, set_custom_slot, set_theme, slot, slot_label, theme_swatches,
    to_hex, Theme, ThemeState,
};

#[test]
fn theme_labels_and_ids() {
    assert_eq!(Theme::Aurora.label(), "Northern Lights");
    assert_eq!(Theme::PolarNight.label(), "Polar Night");
    assert_eq!(Theme::Custom.label(), "Custom");
    assert_eq!(Theme::MidnightSun.id(), "midnight_sun");
    assert_eq!(Theme::SeaBreeze.id(), "sea_breeze");
    assert_eq!(Theme::default(), Theme::Aurora);
}

#[test]
fn theme_id_round_trip() {
    for t in Theme::all() {
        assert_eq!(Theme::from_id(t.id()), t);
    }
    assert_eq!(Theme::all().len(), 6);
}

#[test]
fn unknown_theme_id_is_aurora() {
    assert_eq!(Theme::from_id("nord"), Theme::Aurora);
    assert_eq!(Theme::from_id(""), Theme::Aurora);
    assert_eq!(Theme::from_id("Void"), Theme::Aurora);
    assert_eq!(Theme::from_id("void"), Theme::Void);
}

#[test]
fn palettes_and_slots() {
    let a = Theme::Aurora.palette();
    assert_eq!(a.bg_deepest, 0x131620);
    assert_eq!(palette_slot(&a, 6), 0x61DBA8);
    assert_eq!(palette_slot(&a, 10), 0x2C313B);
    assert_eq!(palette_slot(&a, 99), 0x2C313B);
    assert_eq!(Theme::Custom.palette().text_bright, a.text_bright);
    assert_eq!(Theme::Void.palette().logo, [0x111111, 0x2A6EE0, 0x4ADFB8]);
}

#[test]
fn swatches_take_one_slot_from_each_builtin() {
    assert_eq!(theme_swatches(0), vec![0x131620, 0x080810, 0xFEF4E8, 0xF0F8FA, 0x000000]);
    assert_eq!(theme_swatches(4), vec![0xC9D3DE, 0xAFC2D8, 0x2E1E0A, 0x1A3A42, 0xC8C8D8]);
}

#[test]
fn active_theme_reads_back() {
    let mut st = ThemeState::new();
    assert_eq!(active_theme(&st), Theme::Aurora);
    for t in Theme::all() {
        set_theme(&mut st, t);
        assert_eq!(active_theme(&st), t);
    }
}

#[test]
fn custom_slots_fall_back_and_read_back() {
    let mut st = ThemeState::new();
    assert_eq!(custom_slot(&st, 0), 0x131620);
    set_custom_slot(&mut st, 0, 0x000000);
    assert_eq!(custom_slot(&st, 0), 0x000000);
    set_custom_slot(&mut st, 3, 0xABCDEF);
    assert_eq!(custom_slot(&st, 3), 0xABCDEF);
    assert_eq!(custom_slot(&st, 4), 0xC9D3DE);
    set_custom_slot(&mut st, 11, 0x123456);
    assert_eq!(custom_slot(&st, 11), 0x2C313B);
    set_custom_slot(&mut st, 5, 0xFF_123456);
    assert_eq!(custom_slot(&st, 5), 0x123456);
}

#[test]
fn slot_follows_active_theme() {
    let mut st = ThemeState::new();
    set_custom_slot(&mut st, 1, 0x010203);
    assert_eq!(slot(&st, 1), 0x1B1E25);
    set_theme(&mut st, Theme::Custom);
    assert_eq!(slot(&st, 1), 0x010203);
    assert_eq!(slot(&st, 2), 0x252930);
    set_theme(&mut st, Theme::Void);
    assert_eq!(slot(&st, 1), 0x141419);
}

#[test]
fn logo_stops_per_theme() {
    let mut st = ThemeState::new();
    assert_eq!(logo_stops(&st), [0xB38CEB, 0x52C7DC, 0x61DBA8]);
    set_theme(&mut st, Theme::Custom);
    set_custom_slot(&mut st, 6, 0x000006);
    set_custom_slot(&mut st, 7, 0x000007);
    set_custom_slot(&mut st, 8, 0x000008);
    assert_eq!(logo_stops(&st), [0x000008, 0x000007, 0x000006]);
}

#[test]
fn hex_text() {
    assert_eq!(to_hex(0x0A0B0C), "#0A0B0C");
    assert_eq!(to_hex(0xFFFFFF), "#FFFFFF");
    assert_eq!(to_hex(0), "#000000");
    assert_eq!(parse_hex("#0a0B0c"), Some(0x0A0B0C));
    assert_eq!(parse_hex("  ##ffffff \n"), Some(0xFFFFFF));
    assert_eq!(parse_hex("123456"), Some(0x123456));
    assert_eq!(parse_hex("#12345"), None);
    assert_eq!(parse_hex("#1234567"), None);
    assert_eq!(parse_hex("#12345g"), None);
    assert_eq!(parse_hex(""), None);
    assert_eq!(parse_hex("# 123456"), None);
}

#[test]
fn hex_round_trip() {
    for v in [0u32, 1, 0x7F7F7F, 0xABCDEF, 0xFFFFFF, 0x100000] {
        assert_eq!(parse_hex(&to_hex(v)), Some(v));
    }
}

#[test]
fn export_and_import_palette() {
    let mut st = ThemeState::new();
    set_custom_palette(&mut st, &Theme::SeaBreeze.palette());
    set_custom_slot(&mut st, 9, 0x00FF00);
    let text = export_custom(&st);
    assert_eq!(
        text,
        "#F0F8FA #E0F2F5 #D6EEF2 #CDE9EF #1A3A42 #3A6670 #0F5A6E #106044 #124F60 #00FF00 #B4DCE4"
    );
    let back = parse_custom_palette(&text).unwrap();
    let expect: Vec<u32> = (0..11).map(|i| custom_slot(&st, i)).collect();
    assert_eq!(back, expect);
}

#[test]
fn import_palette_separators_and_errors() {
    let line = "#000001,#000002\n#000003\t#000004  #000005 #000006 #000007 #000008 #000009 #00000A #00000B";
    assert_eq!(parse_custom_palette(line), Some((1..=11).collect::<Vec<u32>>()));
    assert_eq!(parse_custom_palette("#000001 #000002"), None);
    let twelve = format!("{line} #00000C");
    assert_eq!(parse_custom_palette(&twelve), None);
    let bad = line.replace("#000005", "#00000Z");
    assert_eq!(parse_custom_palette(&bad), None);
    assert_eq!(parse_custom_palette(""), None);
}

#[test]
fn slot_labels_in_editor_order() {
    assert_eq!(slot_label(0), "Background");
    assert_eq!(slot_label(5), "Text (muted)");
    assert_eq!(slot_label(10), "Border");
    assert_eq!(slot_label(11), "");
}
