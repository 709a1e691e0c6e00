use grix::search::options::SearchError;
use grix::search::run::{scan_threads, thread_count};
use grix::search::select::scan_target;
use grix::search::{
    compile, in_scope, intersect, scan_buffer, scan_buffer_ctx, union, FileFilter, SearchOptions,
};

fn re(p: &str) -> regex::bytes::Regex {
    regex::bytes::RegexBuilder::new(p)
        .multi_line(true)
        .build()
        .unwrap()
}

#[test]
fn scan_lines_and_spans() {
    let data = b"foo bar\nbaz foo foo\nqux\n";
    let lines = scan_buffer(&re("foo"), data, false, None);
    assert_eq!(lines.len(), 2);
    assert_eq!(lines[0].line_number, 1);
    assert_eq!(lines[0].spans, vec![(0, 3)]);
    assert_eq!(lines[1].line_number, 2);
    assert_eq!(lines[1].spans, vec![(4, 7), (8, 11)]);
    assert_eq!(lines[1].line, b"baz foo foo");
}

#[test]
fn scan_no_trailing_newline() {
    let data = b"alpha\nbeta";
    let lines = scan_buffer(&re("beta"), data, false, None);
    assert_eq!(lines.len(), 1);
    assert_eq!(lines[0].line_number, 2);
    assert_eq!(lines[0].line, b"beta");
}

#[test]
fn scan_anchors() {
    let data = b"x\nabc\nyabc\n";
    let lines = scan_buffer(&re("^abc$"), data, false, None);
    assert_eq!(lines.len(), 1);
    assert_eq!(lines[0].line_number, 2);
}

#[test]
fn context_before_after() {
    let data = b"l1\nl2\nMATCH\nl4\nl5\n";
    // -C1: line 2, MATCH(3), line 4.
    let lines = scan_buffer_ctx(&re("MATCH"), data, false, None, 1, 1);
    let nums: Vec<u64> = lines.iter().map(|l| l.line_number).collect();
    assert_eq!(nums, vec![2, 3, 4]);
    assert!(!lines[0].is_match);
    assert!(lines[1].is_match);
    assert_eq!(lines[1].line, b"MATCH");
    assert!(!lines[2].is_match);
    // -B2 clamps at the top of the file.
    let lines = scan_buffer_ctx(&re("MATCH"), data, false, None, 2, 0);
    assert_eq!(
        lines.iter().map(|l| l.line_number).collect::<Vec<_>>(),
        vec![1, 2, 3]
    );
}

#[test]
fn context_windows_merge() {
    // Two matches whose context windows touch should not duplicate lines.
    let data = b"a\nHIT\nb\nHIT\nc\n";
    let lines = scan_buffer_ctx(&re("HIT"), data, false, None, 1, 1);
    // lines 1..5 all covered exactly once, in order.
    assert_eq!(
        lines.iter().map(|l| l.line_number).collect::<Vec<_>>(),
        vec![1, 2, 3, 4, 5]
    );
    assert_eq!(lines.iter().filter(|l| l.is_match).count(), 2);
}

#[test]
fn matches_never_span_lines() {
    // ripgrep semantics: \s+ must not bridge a newline.
    let data = b"static\nint x;\nstatic int y;\n";
    let lines = scan_buffer(&re(r"static\s+int"), data, false, None);
    assert_eq!(lines.len(), 1);
    assert_eq!(lines[0].line_number, 3);
    // Explicit \n in the pattern can match nothing, ever.
    assert!(scan_buffer(&re("static\\nint"), data, false, None).is_empty());
    assert!(scan_buffer(&re("static\\nint"), data, true, None).is_empty());
}

#[test]
fn scope_matching() {
    let none: Vec<String> = vec![];
    assert!(in_scope("anything/x.rs", &none)); // no scopes => all

    let dir = vec!["src".to_string()];
    assert!(in_scope("src/main.rs", &dir));
    assert!(in_scope("src/a/b.rs", &dir));
    assert!(in_scope("src", &dir)); // exact path (a file named src) still matches
    assert!(!in_scope("src2/x.rs", &dir)); // prefix must end at a '/'
    assert!(!in_scope("srcfile.rs", &dir));
    assert!(!in_scope("tests/x.rs", &dir));

    let file = vec!["deobf/clean/app-core.clean.jsx".to_string()];
    assert!(in_scope("deobf/clean/app-core.clean.jsx", &file));
    assert!(!in_scope("deobf/clean/app-core.clean.jsx.map", &file));
    assert!(!in_scope("deobf/clean", &file));

    let multi = vec!["src".to_string(), "docs/guide.md".to_string()];
    assert!(in_scope("src/x.rs", &multi));
    assert!(in_scope("docs/guide.md", &multi));
    assert!(!in_scope("docs/other.md", &multi));
}

fn filter(globs: &[&str], select: &[&str], negate: &[&str]) -> FileFilter {
    let opts = SearchOptions {
        globs: globs.iter().map(|s| s.to_string()).collect(),
        types_select: select.iter().map(|s| s.to_string()).collect(),
        types_negate: negate.iter().map(|s| s.to_string()).collect(),
        ..Default::default()
    };
    FileFilter::build(&opts).unwrap()
}

#[test]
fn glob_filter() {
    let f = filter(&["*.rs"], &[], &[]);
    assert!(f.accept("src/main.rs"));
    assert!(!f.accept("README.md"));
    assert!(!f.accept("src/data.json"));

    // exclusion glob
    let f = filter(&["!*.rs"], &[], &[]);
    assert!(!f.accept("src/main.rs"));
    assert!(f.accept("README.md"));

    // no globs => everything
    let f = filter(&[], &[], &[]);
    assert!(f.accept("anything.xyz"));
}

#[test]
fn type_filter() {
    let f = filter(&[], &["rust"], &[]);
    assert!(f.accept("src/main.rs"));
    assert!(!f.accept("script.py"));

    // negate a type
    let f = filter(&[], &[], &["rust"]);
    assert!(!f.accept("src/main.rs"));
    assert!(f.accept("script.py"));
}

#[test]
fn unknown_type_errors() {
    let opts = SearchOptions {
        types_select: vec!["definitely-not-a-type".into()],
        ..Default::default()
    };
    assert!(FileFilter::build(&opts).is_err());
}

#[test]
fn merge_set_ops() {
    assert_eq!(intersect(vec![1, 3, 5], vec![2, 3, 5, 7]), vec![3, 5]);
    assert_eq!(union(vec![1, 5], vec![2, 5, 9]), vec![1, 2, 5, 9]);
    assert_eq!(intersect(vec![], vec![1]), Vec::<u32>::new());
    assert_eq!(union(vec![], vec![1]), vec![1]);
}

fn error_of(pattern: &str, opts: &SearchOptions) -> String {
    match compile(pattern, opts) {
        Err(e) => e.message(),
        Ok(_) => panic!("{pattern} compiled"),
    }
}

#[test]
fn bad_patterns_say_so() {
    let opts = SearchOptions::default();
    assert_eq!(error_of("", &opts), "invalid pattern: empty pattern");
    assert!(error_of("f(oo", &opts).starts_with("invalid pattern: "));
    assert_eq!(SearchError::Io("gone".to_string()).message(), "io error: gone");
}

#[test]
fn bad_filters_say_so() {
    let opts = SearchOptions {
        globs: vec!["*.rs".into(), "{".into()],
        ..Default::default()
    };
    match FileFilter::build(&opts) {
        Err(e) => assert!(
            e.message().starts_with("invalid pattern: bad glob \"{\": "),
            "{}",
            e.message()
        ),
        Ok(_) => panic!("a bad glob was accepted"),
    }
}

#[test]
fn fixed_strings_are_escaped() {
    let opts = SearchOptions {
        fixed_string: true,
        ..Default::default()
    };
    let m = compile("a.c", &opts).unwrap();
    assert_eq!(scan_buffer(&m.regex, b"abc\na.c\n", false, None).len(), 1);
    assert_eq!(m.query.display(), "\"a.c\"");
}

#[test]
fn smart_case_follows_the_pattern() {
    let opts = SearchOptions {
        smart_case: true,
        ..Default::default()
    };
    let data = b"Foo\nfoo\n";
    let lower = compile("foo", &opts).unwrap();
    assert_eq!(scan_buffer(&lower.regex, data, false, None).len(), 2);
    let upper = compile("Foo", &opts).unwrap();
    assert_eq!(scan_buffer(&upper.regex, data, false, None).len(), 1);
}

#[test]
fn words_and_inversion() {
    let word = SearchOptions {
        word: true,
        ..Default::default()
    };
    let m = compile("foo", &word).unwrap();
    assert_eq!(scan_buffer(&m.regex, b"foobar\na foo b\n", false, None).len(), 1);
    let invert = SearchOptions {
        invert: true,
        ..Default::default()
    };
    // The index cannot narrow a search for lines without a match.
    assert_eq!(compile("foobar", &invert).unwrap().query.display(), "ALL");
}

#[test]
fn counts_stop_a_scan() {
    let data = b"x\nx\nx\n";
    assert_eq!(scan_buffer(&re("x"), data, false, Some(2)).len(), 2);
    assert_eq!(scan_buffer(&re("x"), data, false, Some(0)).len(), 0);
    // Only whether there is a match.
    let mere = scan_buffer(&re("x"), data, true, None);
    assert_eq!(mere.len(), 1);
    assert_eq!(mere[0].line_number, 0);
}

#[test]
fn carriage_returns_stay_in_the_line() {
    let lines = scan_buffer(&re("foo"), b"foo\r\nbar\r\n", false, None);
    assert_eq!(lines[0].line, b"foo\r");
    assert_eq!(lines[0].starts, 1);
}

#[test]
fn type_list_names_types() {
    let text = grix::search::filter::type_list().unwrap();
    assert!(text.lines().any(|l| l == "rust: *.rs"), "{text}");
}

#[test]
fn threads_to_scan_with() {
    assert_eq!(thread_count(Some(2), Some(8)), 2);
    assert_eq!(thread_count(None, Some(8)), 8);
    assert_eq!(thread_count(None, None), 4);
    assert_eq!(SearchOptions::default().threads, None);
    assert_eq!(scan_threads(4, 1000), 16);
    assert_eq!(scan_threads(0, 1000), 1);
    assert_eq!(scan_threads(100, 1000), 64);
    assert_eq!(scan_threads(usize::MAX, 3), 3);
    assert_eq!(scan_threads(4, 0), 1);
}

#[test]
fn only_matching_and_inverted_rows() {
    let opts = SearchOptions {
        only_matching: true,
        ..Default::default()
    };
    let m = compile("fo+", &opts).unwrap();
    let r = scan_target(&m, &opts, "p", b"foo fo\nbar\nfooo\n").unwrap();
    assert_eq!(r.rel_path, "p");
    let rows: Vec<(u64, &[u8])> = r.lines.iter().map(|l| (l.line_number, &l.line[..])).collect();
    assert_eq!(rows, vec![(1, &b"foo"[..]), (1, &b"fo"[..]), (3, &b"fooo"[..])]);
    let opts = SearchOptions {
        invert: true,
        ..Default::default()
    };
    let m = compile("fo+", &opts).unwrap();
    let r = scan_target(&m, &opts, "p", b"foo fo\nbar\nfooo\n").unwrap();
    assert_eq!(r.lines.len(), 1);
    assert_eq!(r.lines[0].line_number, 2);
    // A binary text is never reported.
    assert!(scan_target(&m, &opts, "p", b"bar\0\n").is_none());
}

#[test]
fn multiline_rows_cover_every_line_touched() {
    let opts = SearchOptions {
        multiline: true,
        ..Default::default()
    };
    let m = compile(r"b\nc", &opts).unwrap();
    let r = scan_target(&m, &opts, "p", b"a\nxb\ncy\nd\n").unwrap();
    let rows: Vec<(u64, Vec<(usize, usize)>, usize)> = r
        .lines
        .iter()
        .map(|l| (l.line_number, l.spans.clone(), l.starts))
        .collect();
    assert_eq!(rows, vec![(2, vec![(1, 2)], 1), (3, vec![(0, 1)], 0)]);
}

#[test]
fn reported_lines_are_real_and_in_order() {
    let data = b"foo bar\nbaz foo foo\n\nqux\nfoo";
    let real: Vec<&[u8]> = data.split(|b| *b == b'\n').collect();
    for pattern in ["foo", "o", "^", "$", "x*", "ba[rz]", "zzz"] {
        for (before, after) in [(0, 0), (1, 0), (1, 2)] {
            let lines = scan_buffer_ctx(&re(pattern), data, false, None, before, after);
            let mut last = 0;
            for l in &lines {
                assert!(l.line_number > last, "{pattern}");
                last = l.line_number;
                assert_eq!(l.line, real[l.line_number as usize - 1], "{pattern}");
                for &(s, e) in &l.spans {
                    assert!(s < e && e <= l.line.len(), "{pattern}");
                }
            }
        }
    }
    assert!(scan_buffer_ctx(&re("zzz"), data, false, None, 3, 3).is_empty());
}

fn scan(pattern: &str, opts: SearchOptions, data: &[u8]) -> Vec<(u64, Vec<(usize, usize)>)> {
    let m = compile(pattern, &opts).unwrap();
    match scan_target(&m, &opts, "f", data) {
        Some(f) => f.lines.into_iter().map(|l| (l.line_number, l.spans)).collect(),
        None => vec![],
    }
}

#[test]
fn a_line_that_matches_by_itself_is_reported() {
    let data = b"foo\nbar\n";
    let lines = scan_buffer(&re(r"foo\s*"), data, false, None);
    assert_eq!(lines.len(), 1);
    assert_eq!(lines[0].line_number, 1);
    assert_eq!(lines[0].line, b"foo");
    assert_eq!(lines[0].spans, vec![(0, 3)]);
    let opts = SearchOptions { matches_only: true, ..Default::default() };
    assert_eq!(scan(r"foo\s*", opts, data).len(), 1);
    let opts = SearchOptions { invert: true, ..Default::default() };
    assert_eq!(scan(r"foo\s*", opts, data), vec![(2, vec![])]);
    let opts = SearchOptions { only_matching: true, ..Default::default() };
    assert_eq!(scan(r"foo\s*", opts, data), vec![(1, vec![(0, 3)])]);
}

#[test]
fn there_is_no_line_behind_the_last_newline() {
    assert!(scan_buffer(&re("^$"), b"a\n", false, None).is_empty());
    assert!(scan_buffer(&re("^$"), b"a\n", true, None).is_empty());
    assert!(scan_buffer(&re("^$"), b"", false, None).is_empty());
    let lines = scan_buffer(&re("^$"), b"a\n\nb\n", false, None);
    assert_eq!(lines.len(), 1);
    assert_eq!(lines[0].line_number, 2);
    for matches_only in [false, true] {
        let opts = SearchOptions { multiline: true, matches_only, ..Default::default() };
        assert!(scan("^$", opts, b"a\n").is_empty());
    }
    let opts = SearchOptions { multiline: true, ..Default::default() };
    assert_eq!(scan("$", opts, b"a\nb"), vec![(1, vec![]), (2, vec![])]);
}

#[test]
fn greediness_and_boundaries_are_the_patterns_own() {
    let data = b"aXbXc cat\n";
    assert_eq!(scan("a.*X", SearchOptions::default(), data), vec![(1, vec![(0, 4)])]);
    assert_eq!(scan("a.*?X", SearchOptions::default(), data), vec![(1, vec![(0, 2)])]);
    assert_eq!(scan(r"\bc", SearchOptions::default(), data), vec![(1, vec![(6, 7)])]);
    assert_eq!(scan(r"\Bc", SearchOptions::default(), data), vec![(1, vec![(4, 5)])]);
}
