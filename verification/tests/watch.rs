use grix::watch::{
    build_ignore, is_below, is_ignored, next_try, relevant, EventKind, Pending, ATTEMPTS, DEBOUNCE_MS,
    MAX_PENDING_MS, RETRY_PAUSE_MS,
};

#[test]
fn quiet_ends_a_burst() {
    let mut p = Pending::new(0);
    assert!(!p.due(1_000_000));
    p.note_event(EventKind::Modify, vec!["/r/a".to_string()], 10);
    p.note_event(EventKind::Modify, vec!["/r/a".to_string(), "/r/b".to_string()], 20);
    assert!(!p.due(20 + DEBOUNCE_MS - 1));
    assert!(p.due(20 + DEBOUNCE_MS));
    // Each path counts once.
    assert_eq!(p.take(), 2);
    assert!(!p.due(1_000_000));
}

#[test]
fn steady_churn_is_not_put_off_forever() {
    let mut p = Pending::new(0);
    let mut now = 0;
    while now < MAX_PENDING_MS {
        p.note_event(EventKind::Create, vec!["/r/a".to_string()], now);
        assert!(!p.due(now + 1));
        now += 100;
    }
    assert!(p.due(now + 1));
}

#[test]
fn only_changes_matter() {
    assert!(relevant(EventKind::Create));
    assert!(relevant(EventKind::Modify));
    assert!(relevant(EventKind::Remove));
    assert!(!relevant(EventKind::Other));
    let mut p = Pending::new(0);
    p.note_event(EventKind::Other, vec!["/r/a".to_string()], 10);
    assert!(!p.due(1_000_000));
}

#[test]
fn errors_count_as_changes() {
    let mut p = Pending::new(0);
    p.note_error("/r", 5);
    assert!(p.due(5 + DEBOUNCE_MS));
    assert_eq!(p.take(), 1);
}

#[test]
fn builds_are_tried_a_few_times() {
    assert_eq!(next_try(1), Some(RETRY_PAUSE_MS));
    assert_eq!(next_try(ATTEMPTS), None);
}

#[test]
fn ignore_rules_apply_below_directories() {
    let g = build_ignore("\u{feff}target\n*.log\n!keep.log\n".as_bytes());
    assert!(is_ignored(&g, "target", true));
    assert!(is_ignored(&g, "target/debug/x.rs", false));
    assert!(is_ignored(&g, "a/b.log", false));
    assert!(!is_ignored(&g, "keep.log", false));
    assert!(!is_ignored(&g, "src/main.rs", false));
    // .git itself is always left out.
    assert!(is_ignored(&g, ".git/HEAD", false));
}

#[test]
fn ignore_files_are_read_line_by_line() {
    // A carriage return in front of a line feed is no part of a rule.
    let g = build_ignore(b"a\\ \r\n*.log\r\n");
    assert!(is_ignored(&g, "a ", false));
    assert!(is_ignored(&g, "x.log", false));
    // Reading stops at a line that is not UTF-8.
    let g = build_ignore(b"one\n\xff\ntwo\n");
    assert!(is_ignored(&g, "one", false));
    assert!(!is_ignored(&g, "two", false));
    // A directory in front of the path makes no difference.
    assert!(is_ignored(&g, "./one", false));
}

#[test]
fn rooted_paths_are_not_below() {
    for path in ["", "a", "./a", "a/b", ".", "..", "c:", "././/a"] {
        assert!(is_below(path), "{path}");
    }
    for path in ["/", "/a", "\\a", "c:/a", "c:\\a", ".//a", "./c:/a"] {
        assert!(!is_below(path), "{path}");
    }
}
