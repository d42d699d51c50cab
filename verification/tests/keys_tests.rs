use mpv_ne::keys::{
    apply_key_rebind, key_bindings, key_char_name, key_slots, mouse_presets, resolve_mouse_preset,
    resolved_key_for_slot, slot_for_key, KeyOverrides, MouseBindingIds,
};

#[test]
fn slot_table() {
    let slots = key_slots();
    assert_eq!(slots.len(), 24);
    assert_eq!(slots[0].id, "toggle_pause");
    assert_eq!(slots[0].default_key, "space");
    assert_eq!(slots[14].default_key, "\\");
    assert_eq!(slots[23].label, "Next subtitle");
}

#[test]
fn defaults_and_overrides() {
    let mut ov = KeyOverrides::new();
    assert_eq!(resolved_key_for_slot(&ov, "toggle_mute"), Some("m".to_string()));
    assert_eq!(resolved_key_for_slot(&ov, "no_such_slot"), None);
    ov.insert("toggle_mute", "q");
    assert_eq!(resolved_key_for_slot(&ov, "toggle_mute"), Some("q".to_string()));
    ov.insert("toggle_mute", "");
    assert_eq!(resolved_key_for_slot(&ov, "toggle_mute"), None);
    ov.remove("toggle_mute");
    assert_eq!(resolved_key_for_slot(&ov, "toggle_mute"), Some("m".to_string()));
    assert_eq!(ov.get("toggle_mute"), None);
    ov.insert("a", "1");
    ov.clear();
    assert!(ov.pairs().is_empty());
}

#[test]
fn rebind_steals_key_from_other_slot() {
    let mut ov = KeyOverrides::new();
    apply_key_rebind(&mut ov, "toggle_fullscreen", "m");
    assert_eq!(resolved_key_for_slot(&ov, "toggle_fullscreen"), Some("m".to_string()));
    assert_eq!(resolved_key_for_slot(&ov, "toggle_mute"), None);
    assert_eq!(ov.get("toggle_mute"), Some(String::new()));
    assert_eq!(slot_for_key(&ov, "m"), Some(8));
    assert_eq!(slot_for_key(&ov, "f"), None);
    apply_key_rebind(&mut ov, "toggle_mute", "f");
    assert_eq!(resolved_key_for_slot(&ov, "toggle_mute"), Some("f".to_string()));
    assert_eq!(slot_for_key(&ov, "f"), Some(7));
}

#[test]
fn rebind_then_every_slot_distinct() {
    let mut ov = KeyOverrides::new();
    apply_key_rebind(&mut ov, "seek_back", "space");
    let slots = key_slots();
    let mut holders = 0;
    for s in &slots {
        if resolved_key_for_slot(&ov, s.id) == Some("space".to_string()) {
            holders += 1;
            assert_eq!(s.id, "seek_back");
        }
    }
    assert_eq!(holders, 1);
}

#[test]
fn key_map_pairs() {
    let mut ov = KeyOverrides::new();
    let all = key_bindings(&ov);
    assert_eq!(all.len(), 24);
    assert_eq!(all[0], ("space".to_string(), 0));
    ov.insert("toggle_pause", "");
    ov.insert("seek_fwd", "left");
    let some = key_bindings(&ov);
    assert_eq!(some.len(), 23);
    assert_eq!(some[0], ("left".to_string(), 1));
    assert_eq!(some[1], ("left".to_string(), 2));
    assert_eq!(slot_for_key(&ov, "left"), Some(2));
    assert_eq!(slot_for_key(&ov, "space"), None);
}

#[test]
fn mouse_presets_and_ids() {
    let p = mouse_presets();
    assert_eq!(p.len(), 18);
    assert_eq!(p[0].label, "Unbound");
    assert_eq!(resolve_mouse_preset("volume_up_2"), Some(5));
    assert_eq!(resolve_mouse_preset("toggle_stats"), Some(17));
    assert_eq!(resolve_mouse_preset("bogus"), None);
    let d = MouseBindingIds::defaults();
    assert_eq!(d.single_click, "none");
    assert_eq!(d.double_click, "toggle_fullscreen");
    assert_eq!(d.scroll_up, "volume_up_2");
    assert_eq!(d.scroll_down, "volume_down_2");
}

#[test]
fn typed_key_names() {
    assert_eq!(key_char_name("M"), "m");
    assert_eq!(key_char_name("\\"), "\\");
    assert_eq!(key_char_name("#"), "#");
    assert_eq!(key_char_name("\u{c9}"), "\u{c9}");
}

#[test]
fn rebind_leaves_slots_without_the_key_alone() {
    let mut ov = KeyOverrides::new();
    let before: Vec<Option<String>> =
        key_slots().iter().map(|s| resolved_key_for_slot(&ov, s.id)).collect();
    // "m" is toggle_mute's default key; bind it to seek_back.
    apply_key_rebind(&mut ov, "seek_back", "m");
    for (i, s) in key_slots().iter().enumerate() {
        let now = resolved_key_for_slot(&ov, s.id);
        match s.id {
            "seek_back" => assert_eq!(now, Some("m".to_string())),
            "toggle_mute" => assert_eq!(now, None),
            _ => assert_eq!(now, before[i]),
        }
    }
}
