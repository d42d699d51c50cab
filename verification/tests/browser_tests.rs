use mpv_ne::browser::{
    browser_drives, browser_listing, folder_playlist, is_media_ext, is_media_name, sort_entries,
    BrowserEntry, BrowserHistory, DirItem,
};

fn item(name: &str, is_dir: bool, is_file: bool) -> DirItem {
    DirItem { name: name.to_string(), path: format!("/d/{name}"), is_dir, is_file }
}

fn names(v: &[BrowserEntry]) -> Vec<String> {
    v.iter().map(|e| e.name.clone()).collect()
}

#[test]
fn history_back_and_forward() {
    let mut h = BrowserHistory::new();
    assert_eq!(h.location(), None);
    assert!(!h.can_go_back());
    assert!(h.go(Some("/a".to_string())));
    assert!(!h.go(Some("/a".to_string())));
    assert!(h.go(Some("/a/b".to_string())));
    assert!(h.back());
    assert_eq!(h.location(), Some("/a".to_string()));
    assert!(h.can_go_forward());
    assert!(h.forward());
    assert_eq!(h.location(), Some("/a/b".to_string()));
    assert!(!h.forward());
    assert!(h.back());
    assert!(h.back());
    assert_eq!(h.location(), None);
    assert!(!h.back());
    assert!(h.go(Some("/z".to_string())));
    assert!(!h.can_go_forward());
}

#[test]
fn history_keeps_fifty_back_steps() {
    let mut h = BrowserHistory::new();
    for i in 0..60 {
        h.go(Some(format!("/{i}")));
    }
    let mut steps = 0;
    while h.back() {
        steps += 1;
    }
    assert_eq!(steps, 50);
    assert_eq!(h.location(), Some("/9".to_string()));
}

#[test]
fn media_extensions() {
    assert!(is_media_ext("mkv"));
    assert!(is_media_ext("MP4"));
    assert!(is_media_ext("Opus"));
    assert!(!is_media_ext("txt"));
    assert!(!is_media_ext(""));
    assert!(is_media_name("Movie.Name.MKV"));
    assert!(!is_media_name(".mp4"));
    assert!(is_media_name("..mp4"));
    assert!(!is_media_name("noext"));
    assert!(!is_media_name("trailing."));
}

#[test]
fn listing_dirs_then_media_case_insensitive() {
    let items = vec![
        item("b.mp4", false, true),
        item("Zeta", true, false),
        item(".hidden", true, false),
        item("notes.txt", false, true),
        item("A.MKV", false, true),
        item("alpha", true, false),
        item("c.mp3", false, false),
    ];
    let out = browser_listing(&items);
    assert_eq!(names(&out), vec!["alpha", "Zeta", "A.MKV", "b.mp4"]);
    assert!(out[0].is_dir && out[1].is_dir && !out[2].is_dir);
    assert_eq!(out[2].path, "/d/A.MKV");
}

#[test]
fn sort_is_stable_for_equal_keys() {
    let v = vec![
        BrowserEntry { name: "b".into(), path: "1".into(), is_dir: false },
        BrowserEntry { name: "B".into(), path: "2".into(), is_dir: false },
        BrowserEntry { name: "a".into(), path: "3".into(), is_dir: false },
    ];
    let lower = sort_entries(&v, true);
    assert_eq!(lower.iter().map(|e| e.path.clone()).collect::<Vec<_>>(), vec!["3", "1", "2"]);
    let exact = sort_entries(&v, false);
    assert_eq!(names(&exact), vec!["B", "a", "b"]);
}

#[test]
fn drives_or_root() {
    let root = browser_drives(None);
    assert_eq!(root.len(), 1);
    assert_eq!(root[0].name, "/");
    assert_eq!(root[0].path, "/");
    let mut flags = vec![false; 26];
    flags[2] = true;
    flags[3] = true;
    let drives = browser_drives(Some(flags));
    assert_eq!(names(&drives), vec!["C:\\", "D:\\"]);
    assert!(drives.iter().all(|d| d.is_dir));
    assert_eq!(browser_drives(Some(vec![true])).len(), 1);
}

#[test]
fn folder_queue_from_siblings() {
    let sibs = vec![
        item("b.mkv", false, true),
        item("a.mp4", false, true),
        item("sub", true, false),
        item("c.srt", false, true),
        item("C.mp3", false, true),
    ];
    let (files, idx) = folder_playlist("/d/b.mkv", "b.mkv", &sibs);
    assert_eq!(files, vec!["/d/C.mp3", "/d/a.mp4", "/d/b.mkv"]);
    assert_eq!(idx, 2);
    let (files, idx) = folder_playlist("/d/x.mkv", "x.mkv", &sibs);
    assert_eq!(files.len(), 3);
    assert_eq!(idx, 0);
    let (files, idx) = folder_playlist("/d/x.mkv", "x.mkv", &vec![item("c.srt", false, true)]);
    assert_eq!(files, vec!["/d/x.mkv"]);
    assert_eq!(idx, 0);
}
