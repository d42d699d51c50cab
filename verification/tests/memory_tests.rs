use mpv_ne::memory::{last_played, resolution, store_resolution, PathMemory, MAX_ENTRIES};
use mpv_ne::player::{rotate_ccw, rotate_cw};

#[test]
fn stored_values_read_back_and_replace_in_place() {
    let mut m: PathMemory<i64> = PathMemory::new();
    assert_eq!(m.get("/a.mkv"), None);
    m.store("/a.mkv", 2);
    m.store("/b.mkv", 3);
    m.store("/a.mkv", 5);
    assert_eq!(m.get("/a.mkv"), Some(5));
    assert_eq!(m.get("/b.mkv"), Some(3));
    assert_eq!(m.entries(), vec![("/a.mkv".to_string(), 5), ("/b.mkv".to_string(), 3)]);
}

#[test]
fn a_full_memory_forgets_its_oldest_entry() {
    let mut m: PathMemory<u64> = PathMemory::new();
    for i in 0..MAX_ENTRIES {
        m.store(&format!("/f{i}"), i as u64 + 1);
    }
    assert_eq!(m.entries().len(), MAX_ENTRIES);
    m.store("/f7", 99);
    assert_eq!(m.entries().len(), MAX_ENTRIES);
    assert_eq!(m.get("/f0"), Some(1));
    m.store("/new", 42);
    assert_eq!(m.entries().len(), MAX_ENTRIES);
    assert_eq!(m.get("/f0"), None);
    assert_eq!(m.get("/new"), Some(42));
    assert_eq!(m.get("/f7"), Some(99));
    assert_eq!(last_played(&m, "/new"), Some(42));
}

#[test]
fn sizes_and_times_need_known_values() {
    let mut r: PathMemory<(u32, u32)> = PathMemory::new();
    store_resolution(&mut r, "/a", 1920, 0);
    assert_eq!(resolution(&r, "/a"), None);
    store_resolution(&mut r, "/a", 1920, 1080);
    assert_eq!(resolution(&r, "/a"), Some((1920, 1080)));
    let mut t: PathMemory<u64> = PathMemory::new();
    t.store("/a", 0);
    assert_eq!(last_played(&t, "/a"), None);
}

#[test]
fn rotation_at_the_integer_limits() {
    assert_eq!(rotate_cw(i64::MAX - 90), (i64::MAX % 360 + 360) % 360);
    assert_eq!(rotate_ccw(i64::MIN + 90), ((i64::MIN % 360) + 360) % 360);
}
