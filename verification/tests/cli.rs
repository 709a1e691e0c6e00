use grix::cli::args::{parse_args, Cli, Cmd, Parsed};
use grix::cli::output::{json_str, write_highlighted, Printer};
use grix::cli::report::{
    build_report, refresh_report, search_report, status_report, Known, KnownOverlay,
};
use grix::cli::route::{
    combine_patterns, exit_code, hints_stale, list_options, paths_to_scopes, printer_for,
    rel_below, route, search_options, PathArg, Route,
};
use grix::index::builder::BuildStats;
use grix::numbers::{human_count, parse_u64, to_decimal};
use grix::search::{in_scope, FileResult, MatchLine, SearchStats};

fn parse(args: &[&str]) -> Result<Parsed, String> {
    let args: Vec<String> = args.iter().map(|s| s.to_string()).collect();
    parse_args(&args)
}

fn cli(args: &[&str]) -> Cli {
    match parse(args) {
        Ok(Parsed::Run(c)) => c,
        other => panic!("{other:?}"),
    }
}

#[test]
fn a_pattern_and_its_flags() {
    let c = cli(&["foo", "-i", "-C2", "-g", "*.rs", "src"]);
    assert_eq!(c.patterns, vec!["foo"]);
    assert_eq!(c.paths, vec!["src"]);
    assert!(matches!(c.command, Cmd::Search));
    assert!(c.choices.flags.case_insensitive);
    assert_eq!(c.choices.before, 2);
    assert_eq!(c.choices.after, 2);
    assert_eq!(c.choices.globs, vec!["*.rs"]);
}

#[test]
fn subcommands_come_first() {
    assert!(matches!(cli(&["status"]).command, Cmd::Status));
    assert!(matches!(cli(&["index", "/tree"]).command, Cmd::Index));
    assert_eq!(cli(&["index", "/tree"]).path, Some("/tree".to_string()));
    // Elsewhere the word is a pattern or a path.
    let c = cli(&["foo", "status"]);
    assert!(matches!(c.command, Cmd::Search));
    assert_eq!(c.paths, vec!["status"]);
}

#[test]
fn help_and_version() {
    assert!(matches!(parse(&["--help"]), Ok(Parsed::Help)));
    assert!(matches!(parse(&["--version"]), Ok(Parsed::Version)));
}

#[test]
fn bad_arguments_say_so() {
    assert!(parse(&["foo", "-m"]).is_err());
    assert!(parse(&["foo", "-m", "many"]).is_err());
    assert!(parse(&["foo", "--no-such-flag"]).is_err());
    assert!(parse(&["foo", "--color", "sometimes"]).is_err());
}

#[test]
fn several_patterns_are_an_alternation() {
    let of = |p: &[&str], fixed: bool| {
        let p: Vec<String> = p.iter().map(|s| s.to_string()).collect();
        combine_patterns(&p, fixed)
    };
    assert_eq!(of(&[], false), None);
    assert_eq!(of(&["a|b"], true), Some(("a|b".to_string(), true)));
    assert_eq!(of(&["a", "b"], false), Some(("(?:a)|(?:b)".to_string(), false)));
    assert_eq!(of(&["a.c", "b"], true), Some(("a\\.c|b".to_string(), false)));
}

#[test]
fn where_an_answer_comes_from() {
    assert_eq!(route(true, false, false, Some(true), false), Route::Walk);
    assert_eq!(route(false, true, false, Some(true), false), Route::Walk);
    assert_eq!(route(false, false, false, None, false), Route::First);
    assert_eq!(route(false, false, true, None, false), Route::Missing);
    assert_eq!(route(false, false, false, Some(false), true), Route::Rebuild);
    assert_eq!(route(false, false, false, Some(true), true), Route::AsIs);
    assert_eq!(route(false, false, false, Some(true), false), Route::Refresh);
    assert_eq!(route(false, false, true, Some(true), false), Route::AsIs);
    assert!(hints_stale(true, false, false, 3, true));
    assert!(!hints_stale(true, false, true, 3, true));
    assert_eq!(exit_code(Some(true)), 0);
    assert_eq!(exit_code(Some(false)), 1);
    assert_eq!(exit_code(None), 2);
}

#[test]
fn context_is_for_line_output() {
    let c = cli(&["foo", "-C3"]);
    let o = search_options(&c.choices, false, &vec!["src".to_string()]);
    assert_eq!((o.before, o.after), (3, 3));
    assert_eq!(o.path_scopes, vec!["src"]);
    let c = cli(&["foo", "-C3", "-c"]);
    assert_eq!(search_options(&c.choices, false, &vec![]).before, 0);
    let c = cli(&["--files", "-t", "rust", "--hidden"]);
    let o = list_options(&c.choices, &vec![]);
    assert!(o.hidden);
    assert_eq!(o.types_select, vec!["rust"]);
}

fn arg(shown: &str, resolved: Result<&str, &str>) -> PathArg {
    PathArg {
        shown: shown.to_string(),
        resolved: resolved.map(|s| s.to_string()).map_err(|s| s.to_string()),
    }
}

#[test]
fn paths_become_scopes() {
    let args = vec![arg("src", Ok("/r/src")), arg("a/b", Ok("/r/a/b"))];
    assert_eq!(paths_to_scopes(&args, "/r").unwrap(), vec!["src", "a/b"]);
    // The root among the paths means the whole tree.
    let args = vec![arg(".", Ok("/r")), arg("src", Ok("/r/src"))];
    let scopes = paths_to_scopes(&args, "/r").unwrap();
    assert!(scopes.is_empty());
    assert!(in_scope("README.md", &scopes));
    let args = vec![arg(".", Ok("/r")), arg("../x", Ok("/rx"))];
    assert!(paths_to_scopes(&args, "/r").is_err());
    assert_eq!(
        paths_to_scopes(&vec![arg("../x", Ok("/rx"))], "/r").unwrap_err(),
        "../x is outside the indexed tree (/r)"
    );
    assert_eq!(
        paths_to_scopes(&vec![arg("gone", Err("not found"))], "/r").unwrap_err(),
        "cannot resolve gone: not found"
    );
    assert_eq!(rel_below("/r/a", "/r"), Some("a".to_string()));
    assert_eq!(rel_below("/a", "/"), Some("a".to_string()));
}

fn line(n: u64, text: &str, spans: Vec<(usize, usize)>, is_match: bool) -> MatchLine {
    let starts = spans.len();
    MatchLine {
        line_number: n,
        spans,
        line: text.as_bytes().to_vec(),
        is_match,
        starts,
    }
}

fn results() -> Vec<FileResult> {
    vec![
        FileResult {
            rel_path: "a.rs".to_string(),
            lines: vec![
                line(1, "foo bar foo", vec![(0, 3), (8, 11)], true),
                line(2, "next\r", vec![], false),
                line(9, "foo", vec![(0, 3)], true),
            ],
        },
        FileResult {
            rel_path: "b\".rs".to_string(),
            lines: vec![line(4, "x foo", vec![(2, 5)], true)],
        },
    ]
}

fn plain() -> Printer {
    Printer {
        color: false,
        heading: false,
        json: false,
        files_only: false,
        counts: false,
        context: false,
        count_matches: false,
    }
}

fn printed(p: &Printer) -> (String, u64) {
    let r = results();
    assert!(p.can_print(&r));
    let (bytes, n) = p.print(&r);
    (String::from_utf8(bytes).unwrap(), n)
}

#[test]
fn plain_output() {
    let (text, n) = printed(&plain());
    assert_eq!(text, "a.rs:1:foo bar foo\na.rs-2-next\na.rs:9:foo\nb\".rs:4:x foo\n");
    assert_eq!(n, 3);
    let (text, _) = printed(&Printer { context: true, ..plain() });
    assert_eq!(
        text,
        "a.rs:1:foo bar foo\na.rs-2-next\n--\na.rs:9:foo\n--\nb\".rs:4:x foo\n"
    );
}

#[test]
fn other_outputs() {
    let (text, n) = printed(&Printer { files_only: true, ..plain() });
    assert_eq!((text.as_str(), n), ("a.rs\nb\".rs\n", 2));
    let (text, n) = printed(&Printer { counts: true, ..plain() });
    assert_eq!((text.as_str(), n), ("a.rs:2\nb\".rs:1\n", 3));
    let (text, n) = printed(&Printer { counts: true, count_matches: true, ..plain() });
    assert_eq!((text.as_str(), n), ("a.rs:3\nb\".rs:1\n", 4));
    let (text, _) = printed(&Printer { heading: true, ..plain() });
    assert_eq!(text, "a.rs\n1:foo bar foo\n2-next\n9:foo\n\nb\".rs\n4:x foo\n");
    let (text, _) = printed(&Printer { json: true, ..plain() });
    let first = text.lines().next().unwrap();
    let v: serde_json::Value = serde_json::from_str(first).unwrap();
    assert_eq!(v["path"], "a.rs");
    assert_eq!(v["line"], 1);
    let last = text.lines().last().unwrap();
    let v: serde_json::Value = serde_json::from_str(last).unwrap();
    assert_eq!(v["path"], "b\".rs");
}

#[test]
fn backward_matches_cannot_be_printed() {
    let bad = vec![FileResult {
        rel_path: "a".to_string(),
        lines: vec![line(1, "foo", vec![(2, 1)], true)],
    }];
    assert!(!plain().can_print(&bad));
}

#[test]
fn highlights() {
    let mut out = Vec::new();
    write_highlighted(&mut out, b"foo bar", &vec![(0, 3)], true);
    assert_eq!(out, b"\x1b[30;43mfoo\x1b[0m bar");
    let mut out = Vec::new();
    write_highlighted(&mut out, b"foo bar", &vec![(0, 3)], false);
    assert_eq!(out, b"foo bar");
}

#[test]
fn json_strings() {
    assert_eq!(json_str("a\"b\\c\n\u{1}"), "\"a\\\"b\\\\c\\n\\u0001\"");
    let parsed: String = serde_json::from_str(&json_str("tab\t\r日本語\u{7f}")).unwrap();
    assert_eq!(parsed, "tab\t\r日本語\u{7f}");
}

#[test]
fn printers_follow_the_terminal() {
    let c = cli(&["foo"]);
    let o = search_options(&c.choices, false, &vec![]);
    let p = printer_for(&c.choices, &o, true);
    assert!(p.color && p.heading);
    let p = printer_for(&c.choices, &o, false);
    assert!(!p.color && !p.heading);
    let c = cli(&["foo", "--color", "always", "--no-heading", "-o", "-c"]);
    let p = printer_for(&c.choices, &o, false);
    assert!(p.color && !p.heading && p.counts && p.count_matches);
}

#[test]
fn numbers() {
    assert_eq!(human_count(0), "0");
    assert_eq!(human_count(999), "999");
    assert_eq!(human_count(1_234_567), "1,234,567");
    assert_eq!(to_decimal(u64::MAX), "18446744073709551615");
    let of = |s: &str| parse_u64(&s.chars().collect());
    assert_eq!(of("18446744073709551615"), Some(u64::MAX));
    assert_eq!(of("18446744073709551616"), None);
    assert_eq!(of("+7"), Some(7));
    assert_eq!(of(""), None);
    assert_eq!(of("-1"), None);
}

fn stats() -> BuildStats {
    BuildStats {
        files_total: 1200,
        files_indexed: 1100,
        files_reused: 1000,
        files_binary: 60,
        files_scan_always: 40,
        files_extracted: 200,
        bytes_read: 5,
    }
}

#[test]
fn reports_on_builds() {
    assert_eq!(
        build_report("/r", &stats(), "0.25", "1.0 KiB"),
        "indexed /r (1,200 files: 1,100 indexed, 1,000 reused, 60 binary, 40 too large) in 0.25s -> 1.0 KiB"
    );
    assert_eq!(
        refresh_report(&stats(), "0.01"),
        "refresh:     200 changed/new, 1,000 reused in 0.01s"
    );
}

#[test]
fn reports_on_searches() {
    let s = |files_in_index: usize| SearchStats {
        query_display: "ALL".to_string(),
        files_in_index,
        candidates: 5,
        files_scanned: 4,
        files_matched: 2,
        lines_matched: 3,
        plan_micros: 0,
        lookup_micros: 7,
        scan_micros: 9,
    };
    assert_eq!(
        search_report(&s(1000), "0.500", "7", "9", "1.0"),
        "query plan:  ALL\nindex:       1,000 files; candidates after planning: 5 (0.500%)\nscanned:     4 files; matched 3 lines in 2 files\ntiming:      postings 7µs · scan 9µs · total 1.0ms"
    );
    assert!(search_report(&s(0), "", "7", "9", "1.0")
        .contains("\ncandidates:  5 (full scan)\n"));
}

#[test]
fn reports_on_the_index() {
    let current = Known::Current {
        files: 2000,
        trigrams: 3,
        size: "9 B".to_string(),
    };
    assert_eq!(
        status_report("/r", "/c/k.gix", &current, &None, false),
        "root:     /r\nindex:    /c/k.gix\nfiles:    2,000\ntrigrams: 3\nsize:     9 B\nwatch:    off (searches refresh the index themselves)\n"
    );
    let overlay = Some(KnownOverlay {
        files: 1,
        superseded: 2,
        size: "8 B".to_string(),
    });
    let text = status_report("/r", "/c/k.gix", &current, &overlay, true);
    assert!(text.contains("overlay:  1 changed files, 2 superseded (8 B) since the base was built\n"));
    assert!(text.ends_with("watch:    live (index kept fresh in the background)\n"));
    assert!(status_report("/r", "/c/k.gix", &Known::Old(2), &None, false)
        .contains("(old format v2)"));
}
