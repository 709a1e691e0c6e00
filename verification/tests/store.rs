use grix::store::{
    data_dir, find_index_upward, fnv1a, heartbeat, index_path, is_stale_temp, overlay_path,
    root_key, temp_sibling, temp_tag, watch_marker_path, watcher_is_live_at,
    watcher_is_live_other_at, TEMP_MAX_AGE_SECS,
};

#[test]
fn fnv_known_value() {
    // FNV-1a 64 of "a" is a published constant.
    assert_eq!(fnv1a(b"a"), 0xaf63dc4c8601ec8c);
}

#[test]
fn key_separator_insensitive() {
    let a = root_key(r"C:\repo\x");
    let b = root_key("C:/repo/x");
    assert_eq!(a, b);
}

#[test]
fn watch_liveness() {
    // fresh heartbeat -> live
    let m = format!("1234\n{}\n", 100_000);
    assert!(watcher_is_live_at(&m, 100_000 + 5_000)); // 5s old
    assert!(!watcher_is_live_at(&m, 100_000 + 40_000)); // 40s old -> stale
    assert!(!watcher_is_live_at(&m, 100_000 - 1)); // clock went backwards
    // malformed markers -> not live
    assert!(!watcher_is_live_at("", 100_000));
    assert!(!watcher_is_live_at("1234\n", 100_000));
    assert!(!watcher_is_live_at("1234\nnotanumber\n", 100_000));
}

#[test]
fn marker_path_sidecar() {
    let p = watch_marker_path("/cache/abc.gix");
    assert_eq!(p, "/cache/abc.watch");
}

#[test]
fn fnv_of_nothing_is_the_offset_basis() {
    assert_eq!(fnv1a(b""), 0xcbf29ce484222325);
}

#[test]
fn sidecars() {
    assert_eq!(overlay_path("/cache/abc.gix"), "/cache/abc.gixo");
    assert_eq!(overlay_path("/cache.d/abc"), "/cache.d/abc.gixo");
    assert_eq!(watch_marker_path("abc.x.gix"), "abc.x.watch");
    assert_eq!(
        temp_sibling("/cache/abc.gix", "new", &temp_tag(12, 3)),
        "/cache/abc.gix.new.12-3.tmp"
    );
}

#[test]
fn sweeping_knows_its_own_temps() {
    assert!(is_stale_temp("k.gix", "k.gix.post.999-0.tmp", Some(0), 0));
    assert!(!is_stale_temp("k.gix", "k.gix", Some(0), 0));
    assert!(!is_stale_temp("k.gix", "k.watch", Some(0), 0));
    assert!(!is_stale_temp("k.gix", "other.gix.new.1-1.tmp", Some(0), 0));
    // A fresh temp (a build in flight) survives.
    assert!(!is_stale_temp("k.gix", "k.gix.shard0.1-2.tmp", Some(0), TEMP_MAX_AGE_SECS));
    assert!(is_stale_temp(
        "k.gix",
        "k.gix.shard0.1-2.tmp",
        Some(TEMP_MAX_AGE_SECS),
        TEMP_MAX_AGE_SECS
    ));
    // So does one whose age is not known.
    assert!(!is_stale_temp("k.gix", "k.gix.post.999-0.tmp", None, 0));
}

#[test]
fn heartbeats_are_live_for_a_while() {
    let m = heartbeat(77, 1_000);
    assert_eq!(m, "77\n1000\n");
    assert!(watcher_is_live_at(&m, 1_000));
    assert!(watcher_is_live_other_at(&m, 1_000, 78));
    // One's own heartbeat is no other watcher's.
    assert!(!watcher_is_live_other_at(&m, 1_000, 77));
}

#[test]
fn white_space_around_the_time_is_no_matter() {
    assert!(watcher_is_live_at("1\n \t1000\u{3000}\r\n", 1_000));
    assert!(!watcher_is_live_at("1\n10 00\n", 1_000));
}

#[test]
fn where_the_data_lives() {
    let some = |s: &str| Some(s.to_string());
    assert_eq!(data_dir(some("/d"), some("/l"), some("/c"), some("/h")).unwrap(), "/d");
    assert_eq!(data_dir(None, some("/l"), some("/c"), some("/h")).unwrap(), "/l/grix");
    assert_eq!(data_dir(None, None, some("/c"), some("/h")).unwrap(), "/c/grix");
    assert_eq!(data_dir(None, None, None, some("/h")).unwrap(), "/h/.cache/grix");
    assert_eq!(
        data_dir(None, None, None, None),
        Err("cannot determine a cache directory (LOCALAPPDATA/XDG_CACHE_HOME/HOME unset)")
    );
}

#[test]
fn index_paths_and_the_nearest_index() {
    let p = index_path("/data", "/repo");
    assert_eq!(p, format!("/data/{:016x}.gix", root_key("/repo")));
    let ancestors = vec!["/repo/a/b".to_string(), "/repo/a".to_string(), "/repo".to_string()];
    let found = find_index_upward("/data", &ancestors, &vec![false, false, true]);
    assert_eq!(found, Some((p, "/repo".to_string())));
    assert_eq!(find_index_upward("/data", &ancestors, &vec![false; 3]), None);
}
