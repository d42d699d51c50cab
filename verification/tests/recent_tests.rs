use mpv_ne::recent::{RecentFiles, MAX_RECENT};

#[test]
fn newest_first_without_duplicates() {
    let mut r = RecentFiles::new();
    r.record("/a");
    r.record("/b");
    r.record("/a");
    assert_eq!(r.paths, vec!["/a".to_string(), "/b".to_string()]);
}

#[test]
fn bounded_list() {
    let mut r = RecentFiles::new();
    for i in 0..40 {
        r.record(&format!("/f{i}"));
    }
    assert_eq!(r.paths.len(), MAX_RECENT);
    assert_eq!(r.paths[0], "/f39");
    assert_eq!(r.paths[29], "/f10");
    r.record("/f20");
    assert_eq!(r.paths.len(), MAX_RECENT);
    assert_eq!(r.paths[0], "/f20");
    assert_eq!(r.paths.iter().filter(|p| p.as_str() == "/f20").count(), 1);
}

#[test]
fn private_mode_flag() {
    let mut r = RecentFiles::from_paths(vec!["/x".into()]);
    assert!(!r.is_private());
    r.set_private(true);
    assert!(r.is_private());
    assert_eq!(r.paths, vec!["/x".to_string()]);
    r.record("/y");
    assert!(r.is_private());
}

#[test]
fn recording_twice_changes_nothing_more() {
    let mut r = RecentFiles::from_paths(vec!["/b".to_string(), "/a".to_string(), "/c".to_string()]);
    r.record("/a");
    let once = r.paths.clone();
    assert_eq!(once, vec!["/a".to_string(), "/b".to_string(), "/c".to_string()]);
    r.record("/a");
    assert_eq!(r.paths, once);
}
