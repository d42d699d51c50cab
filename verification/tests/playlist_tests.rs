use mpv_ne::playlist::Playlist;
use mpv_ne::session::PlaylistSort;
use mpv_ne::sorting::{name_order, number_order};
use mpv_ne::playlist_text::{is_http_url, is_stream_url, m3u_content, m3u_entries, parse_pls};

fn list(items: &[&str]) -> Vec<String> {
    items.iter().map(|s| s.to_string()).collect()
}

#[test]
fn queue_navigation() {
    let mut p = Playlist::from_items(list(&["a", "b", "c"]), 0);
    assert_eq!(p.current(), Some("a".to_string()));
    assert_eq!(p.prev(), None);
    assert_eq!(p.next(), Some("b".to_string()));
    assert_eq!(p.next(), Some("c".to_string()));
    assert_eq!(p.next(), None);
    assert_eq!(p.current_index(), 2);
    assert_eq!(p.prev(), Some("b".to_string()));
    assert_eq!(p.jump(0), Some("a".to_string()));
    assert_eq!(p.jump(3), None);
    assert_eq!(p.current_index(), 0);
}

#[test]
fn out_of_range_index_selects_first() {
    let p = Playlist::from_items(list(&["a", "b"]), 7);
    assert_eq!(p.current_index(), 0);
    let e = Playlist::new();
    assert_eq!(e.current(), None);
    assert_eq!(e.len(), 0);
}

#[test]
fn next_chapter_falls_back_to_next_entry() {
    let p = Playlist::from_items(list(&["a", "b", "c"]), 1);
    assert_eq!(p.next_chapter_target(), "c");
    let q = Playlist::from_items(list(&["a", "b", "c"]), 2);
    assert_eq!(q.next_chapter_target(), "c");
    assert_eq!(q.current_index(), 2);
}

#[test]
fn remove_keeps_playing_entry() {
    let mut p = Playlist::from_items(list(&["a", "b", "c", "d"]), 2);
    p.remove(0);
    assert_eq!(p.items(), &list(&["b", "c", "d"]));
    assert_eq!(p.current(), Some("c".to_string()));
    p.remove(2);
    assert_eq!(p.current(), Some("c".to_string()));
    p.remove(1);
    assert_eq!(p.items(), &list(&["b"]));
    assert_eq!(p.current_index(), 0);
    p.remove(5);
    assert_eq!(p.len(), 1);
    p.remove(0);
    assert_eq!(p.len(), 0);
    assert_eq!(p.current_index(), 0);
}

#[test]
fn remove_playing_entry_moves_to_its_successor() {
    let mut p = Playlist::from_items(list(&["a", "b", "c"]), 1);
    p.remove(1);
    assert_eq!(p.current(), Some("c".to_string()));
}

#[test]
fn append_unique_and_push() {
    let mut p = Playlist::new();
    assert!(p.append_unique("x"));
    assert!(!p.append_unique("x"));
    assert!(p.append_unique("y"));
    p.push("x");
    assert_eq!(p.items(), &list(&["x", "y", "x"]));
    assert_eq!(p.position("x"), Some(0));
    assert_eq!(p.position("z"), None);
    assert!(p.contains("y"));
}

#[test]
fn reselect_after_sorting() {
    let mut p = Playlist::from_items(list(&["c", "a", "b"]), 0);
    p.replace(list(&["a", "b", "c"]), 0);
    p.reselect("c");
    assert_eq!(p.current_index(), 2);
    p.reselect("missing");
    assert_eq!(p.current_index(), 2);
}

#[test]
fn shuffle_is_a_permutation_with_current_first() {
    for seed in [0u64, 1, 42, 0xdead_beef, u64::MAX] {
        let items = list(&["a", "b", "c", "d", "e", "f", "g"]);
        let mut p = Playlist::from_items(items.clone(), 3);
        p.shuffle_with_seed(seed);
        assert_eq!(p.current_index(), 0);
        assert_eq!(p.items()[0], "d");
        let mut got = p.items().clone();
        got.sort();
        assert_eq!(got, items);
    }
}

#[test]
fn shuffle_with_seed_is_deterministic() {
    let items = list(&["a", "b", "c", "d", "e"]);
    let mut p = Playlist::from_items(items.clone(), 0);
    let mut q = Playlist::from_items(items, 0);
    p.shuffle_with_seed(7);
    q.shuffle_with_seed(7);
    assert_eq!(p.items(), q.items());
}

#[test]
fn shuffle_leaves_short_lists() {
    let mut p = Playlist::from_items(list(&["only"]), 0);
    p.shuffle();
    assert_eq!(p.items(), &list(&["only"]));
    let mut q = Playlist::from_items(list(&["a", "b", "c"]), 2);
    q.shuffle();
    assert_eq!(q.items()[0], "c");
    assert_eq!(q.len(), 3);
}

#[test]
fn m3u_reading() {
    let text = "#EXTM3U\n#EXTINF:123,Title\n/music/a.mp3\r\n\n  /music/b.flac  \nhttp://x/stream\n#comment";
    assert_eq!(m3u_entries(text), list(&["/music/a.mp3", "/music/b.flac", "http://x/stream"]));
    assert_eq!(m3u_entries("   \n"), list(&[""]));
    assert_eq!(m3u_entries(""), Vec::<String>::new());
}

#[test]
fn m3u_writing_and_round_trip() {
    let entries = list(&["/a/one.mkv", "C:\\two.mp4", "rtsp://cam/1"]);
    let text = m3u_content(&entries);
    assert_eq!(text, "#EXTM3U\n/a/one.mkv\nC:\\two.mp4\nrtsp://cam/1");
    assert_eq!(m3u_entries(&text), entries);
    assert_eq!(m3u_content(&Vec::new()), "#EXTM3U\n");
    assert_eq!(m3u_entries(&m3u_content(&Vec::new())), Vec::<String>::new());
}

#[test]
fn pls_reading_sorted_by_number() {
    let text = "[playlist]\nNumberOfEntries=3\nFile3=/c.mp3\nTitle3=C\nFile1= /a.mp3 \n  File2=http://b\nFile10=/j.mp3\nVersion=2\n";
    assert_eq!(parse_pls(text), list(&["/a.mp3", "http://b", "/c.mp3", "/j.mp3"]));
}

#[test]
fn pls_skips_bad_lines_and_keeps_file_order_for_ties() {
    let text = "File2=second\nFilex=bad\nFile=none\nFile1=\nFile+4=plus\nFile2=again\nfile1=lower\nFile99999999999=huge\nFile3";
    assert_eq!(parse_pls(text), list(&["second", "again", "plus"]));
}

#[test]
fn stream_url_prefixes() {
    assert!(is_stream_url("http://a"));
    assert!(is_stream_url("https://a"));
    assert!(is_stream_url("rtsp://a"));
    assert!(is_stream_url("rtmp://a"));
    assert!(!is_stream_url("HTTP://a"));
    assert!(!is_stream_url("/home/x.mp4"));
    assert!(is_http_url("https://a"));
    assert!(!is_http_url("rtsp://a"));
}

fn names(items: &[Option<&str>]) -> Vec<Option<String>> {
    items.iter().map(|s| s.map(|x| x.to_string())).collect()
}

#[test]
fn sort_by_name_ascending_keeps_current() {
    let mut p = Playlist::from_items(list(&["/m/b.mkv", "/m/a.mkv", "/", "/m/c.mkv"]), 0);
    p.sort_by_name(&names(&[Some("b.mkv"), Some("a.mkv"), None, Some("c.mkv")]), false);
    assert_eq!(p.items(), &list(&["/", "/m/a.mkv", "/m/b.mkv", "/m/c.mkv"]));
    assert_eq!(p.current(), Some("/m/b.mkv".to_string()));
    assert_eq!(p.current_index(), 2);
}

#[test]
fn sort_by_name_descending() {
    let mut p = Playlist::from_items(list(&["x/a", "x/C", "x/b"]), 1);
    p.sort_by_name(&names(&[Some("a"), Some("C"), Some("b")]), true);
    // Upper case sorts before lower case in text order.
    assert_eq!(p.items(), &list(&["x/b", "x/a", "x/C"]));
    assert_eq!(p.current(), Some("x/C".to_string()));
}

#[test]
fn sort_by_name_is_stable_for_equal_names() {
    let mut p = Playlist::from_items(list(&["d1/e.mp4", "d2/e.mp4", "d0/a.mp4"]), 0);
    p.sort_by_name(&names(&[Some("e.mp4"), Some("e.mp4"), Some("a.mp4")]), false);
    assert_eq!(p.items(), &list(&["d0/a.mp4", "d1/e.mp4", "d2/e.mp4"]));
    p.sort_by_name(&names(&[Some("a.mp4"), Some("e.mp4"), Some("e.mp4")]), true);
    assert_eq!(p.items(), &list(&["d1/e.mp4", "d2/e.mp4", "d0/a.mp4"]));
}

#[test]
fn sort_by_size_both_ways_is_stable() {
    let mut p = Playlist::from_items(list(&["a", "b", "c", "d"]), 3);
    p.sort_by_number(&vec![30, 10, 30, 20], false);
    assert_eq!(p.items(), &list(&["b", "d", "a", "c"]));
    assert_eq!(p.current_index(), 1);
    let mut q = Playlist::from_items(list(&["a", "b", "c", "d"]), 0);
    q.sort_by_number(&vec![30, 10, 30, 20], true);
    assert_eq!(q.items(), &list(&["a", "c", "d", "b"]));
    assert_eq!(q.current_index(), 0);
}

#[test]
fn sort_by_modified_time_with_times_before_the_epoch() {
    let mut p = Playlist::from_items(list(&["new", "old", "ancient"]), 0);
    p.sort_by_number(&vec![1_700_000_000_000_000_000, 5, -86_400_000_000_000], false);
    assert_eq!(p.items(), &list(&["ancient", "old", "new"]));
    assert_eq!(p.current(), Some("new".to_string()));
}

#[test]
fn sorting_an_empty_queue_changes_nothing() {
    let mut p = Playlist::new();
    p.sort_by_name(&Vec::new(), false);
    p.sort_by_number(&Vec::new(), true);
    assert_eq!(p.len(), 0);
    assert_eq!(p.current_index(), 0);
}

#[test]
fn duplicate_entries_play_the_first_copy_after_sorting() {
    let mut p = Playlist::from_items(list(&["z", "a", "z"]), 2);
    p.sort_by_number(&vec![1, 2, 3], true);
    assert_eq!(p.items(), &list(&["z", "a", "z"]));
    assert_eq!(p.current_index(), 0);
}

#[test]
fn sort_orders_of_positions() {
    assert_eq!(name_order(&names(&[Some("b"), None, Some("a")]), false), vec![1, 2, 0]);
    assert_eq!(number_order(&vec![2, 2, 1], true), vec![0, 1, 2]);
    assert_eq!(number_order(&vec![2, 2, 1], false), vec![2, 0, 1]);
}

#[test]
fn sort_kinds() {
    assert!(PlaylistSort::Name.compares_names());
    assert!(PlaylistSort::NameDesc.compares_names());
    assert!(!PlaylistSort::Size.compares_names());
    assert!(!PlaylistSort::Modified.compares_names());
    assert!(PlaylistSort::SizeDesc.is_descending());
    assert!(PlaylistSort::NameDesc.is_descending());
    assert!(!PlaylistSort::Modified.is_descending());
    assert!(!PlaylistSort::Name.is_descending());
}

#[test]
fn append_missing_counts_new_entries() {
    let mut p = Playlist::from_items(list(&["a", "b"]), 1);
    let added = p.append_missing(&list(&["b", "c", "c", "d"]));
    assert_eq!(added, 2);
    assert_eq!(p.items(), &list(&["a", "b", "c", "d"]));
    assert_eq!(p.current_index(), 1);
    assert_eq!(p.append_missing(&list(&["a"])), 0);
}
