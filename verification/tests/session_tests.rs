use mpv_ne::keys::{apply_key_rebind, KeyOverrides};
use mpv_ne::playlist::Playlist;
use mpv_ne::session::{
    added_note, chrome_overlay_visible, live_edge_tick, open_input, OpenInput, wait_at_end, LiveAction, LiveEdge,
    chrome_visible, end_of_file, key_outcome, window_title, AfterPlayback, AppSettingsCategory,
    EndAction, FrameMode, KeyContext, KeyOutcome, ModalDialog, ModalKind, PanelKind, PanelState,
};
use mpv_ne::settings::{
    gl_render_unavailable, needs_ytdl, set_custom_title_bar, set_gl_render_enabled,
    use_custom_title_bar, GlRenderFlags, InterfaceSettings, StreamingSettings, SubtitleSettings,
    TitleBarSetting, WindowSettings,
};

fn quiet() -> KeyContext {
    KeyContext {
        rebind_capture: None,
        modal_open: false,
        subs_menu_open: false,
        fit_menu_open: false,
        audio_menu_open: false,
        panel_open: false,
        show_help: false,
        file_menu_open: false,
        paste_menu_open: false,
        main_menu_open: false,
        sub_search_open: false,
        fullscreen: false,
        chrome_force_hidden: false,
    }
}

#[test]
fn frame_mode_cycles() {
    assert_eq!(FrameMode::default(), FrameMode::Fit);
    assert_eq!(FrameMode::Fit.next(), FrameMode::Fill);
    assert_eq!(FrameMode::Fill.next(), FrameMode::Stretch);
    assert_eq!(FrameMode::Stretch.next(), FrameMode::Fit);
    assert_eq!(FrameMode::Stretch.label(), "Stretch");
    assert_eq!(FrameMode::Fit.next().next().next(), FrameMode::Fit);
}

#[test]
fn enum_defaults() {
    assert_eq!(AfterPlayback::default(), AfterPlayback::DoNothing);
    assert_eq!(AppSettingsCategory::default(), AppSettingsCategory::Interface);
}

#[test]
fn modal_texts() {
    let d = ModalDialog::open(ModalKind::JumpToTime);
    assert_eq!(d.title, "Jump to time");
    assert_eq!(d.prompt, "Enter time (1:23:45 or seconds)");
    assert!(d.input.is_empty());
    assert_eq!(ModalDialog::open(ModalKind::AddPlaylistUrl).title, "Add URL to playlist");
}

#[test]
fn panel_toggling() {
    let mut p = PanelState::new();
    let c = p.toggle(Some(PanelKind::Browser), true);
    assert!(c.opened && !c.closed && c.load_drives);
    assert_eq!(p.active, Some(PanelKind::Browser));
    let c = p.toggle(Some(PanelKind::Recent), true);
    assert!(!c.opened && !c.closed && !c.load_drives);
    assert_eq!(p.last, PanelKind::Recent);
    let c = p.toggle(Some(PanelKind::Recent), false);
    assert!(c.closed);
    assert_eq!(p.active, None);
    assert_eq!(p.last, PanelKind::Recent);
    let c = p.toggle(None, false);
    assert!(!c.opened && !c.closed);
}

#[test]
fn end_of_file_choices() {
    let mut pl = Playlist::from_items(vec!["a".into(), "b".into()], 0);
    match end_of_file(AfterPlayback::NextFile, &mut pl, &None, true) {
        EndAction::OpenNext(p) => assert_eq!(p, "b"),
        _ => panic!("expected the next file"),
    }
    assert_eq!(pl.current_index(), 1);
    assert!(matches!(end_of_file(AfterPlayback::NextFile, &mut pl, &None, true), EndAction::Pause));
    match end_of_file(AfterPlayback::LoopFile, &mut pl, &Some("x".into()), true) {
        EndAction::Reopen(p) => assert_eq!(p, "x"),
        _ => panic!("expected a reopen"),
    }
    assert!(matches!(end_of_file(AfterPlayback::LoopFile, &mut pl, &None, true), EndAction::Pause));
    assert!(matches!(end_of_file(AfterPlayback::ClosePlayer, &mut pl, &None, true), EndAction::Close));
    assert!(matches!(end_of_file(AfterPlayback::ClosePlayer, &mut pl, &None, false), EndAction::Nothing));
    assert!(matches!(end_of_file(AfterPlayback::DoNothing, &mut pl, &None, true), EndAction::Hold));
}

#[test]
fn key_presses() {
    let ov = KeyOverrides::new();
    let c = quiet();
    assert!(matches!(key_outcome(&c, "space", &ov), KeyOutcome::Slot(0)));
    assert!(matches!(key_outcome(&c, "end", &ov), KeyOutcome::JumpToLive));
    assert!(matches!(key_outcome(&c, "?", &ov), KeyOutcome::ToggleHelp));
    assert!(matches!(key_outcome(&c, "q", &ov), KeyOutcome::Ignore));
    assert!(matches!(key_outcome(&c, "escape", &ov), KeyOutcome::Ignore));
    let mut fs = quiet();
    fs.fullscreen = true;
    fs.chrome_force_hidden = true;
    assert!(matches!(key_outcome(&fs, "escape", &ov), KeyOutcome::ExitFullscreen));
    fs.fullscreen = false;
    assert!(matches!(key_outcome(&fs, "escape", &ov), KeyOutcome::ShowChrome));
    let mut m = quiet();
    m.modal_open = true;
    m.panel_open = true;
    assert!(matches!(key_outcome(&m, "escape", &ov), KeyOutcome::CloseModal));
    m.modal_open = false;
    assert!(matches!(key_outcome(&m, "escape", &ov), KeyOutcome::ClosePopups));
    let mut h = quiet();
    h.show_help = true;
    h.sub_search_open = true;
    assert!(matches!(key_outcome(&h, "escape", &ov), KeyOutcome::CloseHelp));
    h.show_help = false;
    assert!(matches!(key_outcome(&h, "escape", &ov), KeyOutcome::CloseSubSearch));
}

#[test]
fn key_press_during_rebind() {
    let mut ov = KeyOverrides::new();
    let mut c = quiet();
    c.rebind_capture = Some("toggle_mute".into());
    match key_outcome(&c, "k", &ov) {
        KeyOutcome::Rebind(slot, key) => {
            assert_eq!(slot, "toggle_mute");
            assert_eq!(key, "k");
            apply_key_rebind(&mut ov, &slot, &key);
        }
        _ => panic!("expected a rebind"),
    }
    assert!(matches!(key_outcome(&c, "escape", &ov), KeyOutcome::CancelRebind));
    assert!(matches!(key_outcome(&quiet(), "k", &ov), KeyOutcome::Slot(7)));
    assert!(matches!(key_outcome(&quiet(), "m", &ov), KeyOutcome::Ignore));
}

#[test]
fn titles_and_chrome() {
    assert_eq!(window_title(false, None), "MPV-NE");
    assert_eq!(window_title(true, Some("a.mkv")), "[Private] MPV-NE | a.mkv");
    assert!(chrome_visible(false, false));
    assert!(!chrome_visible(true, false));
    assert!(!chrome_visible(false, true));
}

#[test]
fn settings_defaults_and_upgrade() {
    let w = WindowSettings::default();
    assert!(w.w.is_none() && w.x.is_none());
    assert_eq!(StreamingSettings::default().quality_height, 1080);
    assert!(SubtitleSettings::default().lang.is_empty());
    let i = InterfaceSettings::default();
    assert!(i.snap_to_edge && i.custom_title_bar && i.auto_load_siblings);
    assert!(!i.single_instance && !i.start_pinned && !i.pause_on_minimize);
    let lw = WindowSettings::from_legacy(Some(1280), Some(-1), Some(-5), None);
    assert_eq!(lw.w, Some(1280));
    assert_eq!(lw.h, Some(u32::MAX));
    assert_eq!(lw.x, Some(-5));
    assert_eq!(lw.y, None);
    assert_eq!(WindowSettings::from_legacy(Some(1 << 32), None, Some(1 << 31), None).w, Some(0));
    assert_eq!(StreamingSettings::from_legacy(None).quality_height, 1080);
    assert_eq!(StreamingSettings::from_legacy(Some(720)).quality_height, 720);
}

#[test]
fn startup_switches() {
    let mut t = TitleBarSetting::new();
    assert!(use_custom_title_bar(&t));
    set_custom_title_bar(&mut t, false);
    assert!(!use_custom_title_bar(&t));
    let mut g = GlRenderFlags::new();
    assert!(!g.gl_render_wanted(false));
    assert!(g.gl_render_wanted(true));
    set_gl_render_enabled(&mut g, true);
    assert!(g.gl_render_wanted(false));
    g.mark_failed();
    assert!(gl_render_unavailable(&g));
    assert!(!g.gl_render_wanted(true));
    set_gl_render_enabled(&mut g, true);
    assert!(gl_render_unavailable(&g));
}

#[test]
fn extractor_sites() {
    assert!(needs_ytdl("https://www.YouTube.com/watch?v=x"));
    assert!(needs_ytdl("https://youtu.be/x"));
    assert!(needs_ytdl("https://x.com/a/status/1"));
    assert!(!needs_ytdl("https://example.org/video.m3u8"));
    assert!(!needs_ytdl("rtsp://cam/1"));
}

#[test]
fn live_edge_stops_after_three_stalls() {
    let start = LiveEdge { catching_up: true, ..LiveEdge::default() };
    let (s, a) = wait_at_end(start, true);
    assert_eq!(a, LiveAction::Poke);
    assert!(s.waiting);
    assert_eq!(s.stalls, 0);
    let (s, a) = live_edge_tick(s, false);
    assert_eq!((s.stalls, a), (1, LiveAction::Poke));
    let (s, a) = live_edge_tick(s, false);
    assert_eq!((s.stalls, a), (2, LiveAction::Poke));
    let (s, a) = live_edge_tick(s, false);
    assert_eq!(a, LiveAction::StopWatching);
    assert!(!s.waiting);
    assert!(!s.catching_up);
    let (s2, a) = live_edge_tick(s, false);
    assert_eq!(a, LiveAction::Nothing);
    assert_eq!(s2, s);
}

#[test]
fn live_edge_growth_resets_the_count() {
    let (s, a) = wait_at_end(LiveEdge::default(), false);
    assert_eq!(a, LiveAction::Nothing);
    let (s, _) = live_edge_tick(s, false);
    let (s, _) = live_edge_tick(s, false);
    let (s, a) = live_edge_tick(s, true);
    assert_eq!(a, LiveAction::Poke);
    assert_eq!(s.stalls, 0);
    assert!(s.is_live);
    assert!(s.waiting);
}

#[test]
fn added_notes() {
    assert_eq!(added_note(0), None);
    assert_eq!(added_note(1), Some("Added 1 file to playlist".to_string()));
    assert_eq!(added_note(12), Some("Added 12 files to playlist".to_string()));
}

#[test]
fn open_dialog_decisions() {
    assert_eq!(open_input("", true, true), OpenInput::Ignore);
    assert_eq!(open_input("/home/me/a.mkv", true, false), OpenInput::LoadPath);
    assert_eq!(open_input("https://www.YouTube.com/watch?v=x", false, false), OpenInput::FetchYtdl);
    assert_eq!(open_input("https://www.youtube.com/watch?v=x", false, true), OpenInput::OpenUrl);
    assert_eq!(open_input("https://example.com/live.m3u8", false, false), OpenInput::OpenUrl);
}

#[test]
fn overlay_controls_only_while_hidden() {
    assert!(!chrome_overlay_visible(false, false, true, true));
    assert!(chrome_overlay_visible(true, false, true, false));
    assert!(chrome_overlay_visible(false, true, false, true));
    assert!(!chrome_overlay_visible(true, true, false, false));
}
