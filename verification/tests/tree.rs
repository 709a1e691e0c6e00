//! Building and searching whole trees, held in memory.
//!
//! The core property: searching WITH the index returns exactly the same
//! (path, line) set as a full walk-scan, for every pattern shape the planner
//! handles. The index must only ever narrow work, never change results.

use std::collections::{BTreeMap, BTreeSet};

use grix::index::builder::{plan_build, BuildOptions, BuildStats, Mode};
use grix::index::candidates::{candidate_of, prunes, sort_candidates, Candidate};
use grix::index::extract::{PairAcc, WorkMsg};
use grix::index::finish::{build_stats, mark_binaries, retries, write_set};
use grix::index::format::{IndexError, IndexReader};
use grix::index::pairs::{run_bytes, Run};
use grix::search::run::{finish_search, index_names, scan_targets, walk_names};
use grix::search::select::{candidate_ids, select_targets, walk_targets, Target};
use grix::search::{compile, FileResult, SearchOptions, SearchStats, View};
use grix::triset::TriSet;
use grix::watch::{build_ignore, is_ignored};

/// A tree: for each path the contents and the time of the last change.
struct Tree {
    files: BTreeMap<String, (Vec<u8>, u64)>,
    clock: u64,
    /// Whether the tree is a git repository, so that .gitignore applies.
    git: bool,
}

impl Tree {
    fn new() -> Tree {
        Tree {
            files: BTreeMap::new(),
            clock: 0,
            git: false,
        }
    }

    fn write(&mut self, path: &str, content: &[u8]) {
        self.clock += 1;
        self.files
            .insert(path.to_string(), (content.to_vec(), self.clock));
    }

    fn remove(&mut self, path: &str) {
        self.files.remove(path);
    }

    /// What a walk finds, in the order of paths.
    fn found(&self, no_ignore: bool) -> Vec<Candidate> {
        let rules = match self.files.get(".gitignore") {
            Some((text, _)) if self.git => text.clone(),
            _ => Vec::new(),
        };
        let rules = build_ignore(&rules);
        let mut found = Vec::new();
        for (path, (content, mtime)) in &self.files {
            let parts: Vec<String> = path.split('/').map(|s| s.to_string()).collect();
            let pruned = parts[..parts.len() - 1].iter().any(|p| prunes(p));
            if pruned || (!no_ignore && is_ignored(&rules, path, false)) {
                continue;
            }
            found.push(candidate_of(&parts, content.len() as u64, *mtime, false).unwrap());
        }
        sort_candidates(found)
    }

    fn read(&self, path: &str) -> Option<Vec<u8>> {
        self.files.get(path).map(|(content, _)| content.clone())
    }
}

/// The index files, and how often each was written.
struct Store {
    base: Option<Vec<u8>>,
    over: Option<Vec<u8>>,
    base_writes: u32,
    over_writes: u32,
    builds: u64,
}

impl Store {
    fn new() -> Store {
        Store {
            base: None,
            over: None,
            base_writes: 0,
            over_writes: 0,
            builds: 0,
        }
    }

    fn over(&self) -> IndexReader<'_> {
        IndexReader::parse(self.over.as_ref().unwrap()).unwrap()
    }

    fn base(&self) -> IndexReader<'_> {
        IndexReader::parse(self.base.as_ref().unwrap()).unwrap()
    }

    /// The base's bytes with the build and parent ids masked out, so two
    /// logically identical builds compare equal.
    fn masked(&self) -> Vec<u8> {
        let mut v = self.base.clone().unwrap();
        v[128..144].fill(0);
        v
    }
}

fn build(tree: &Tree, store: &mut Store, opts: &BuildOptions) -> BuildStats {
    let found = tree.found(false);
    let old_base = store.base.clone();
    let old_over = store.over.clone();
    let base = old_base.as_ref().and_then(|b| IndexReader::parse(b).ok());
    let over = old_over.as_ref().and_then(|b| IndexReader::parse(b).ok());
    let mut plan = plan_build(&found, base.as_ref(), over.as_ref(), opts);
    store.builds += 1;
    let (mut extracted, mut bytes_read) = (0, 0);
    if let Some(mut w) = plan.write.take() {
        let mut acc = PairAcc::new(opts.spill_budget);
        let mut tri = TriSet::new();
        let mut spilled: Vec<Vec<u8>> = Vec::new();
        let mut binaries: Vec<u32> = Vec::new();
        for &(id, source) in &w.to_extract {
            let data = tree.read(&found[source].rel_path);
            let mut msg = WorkMsg::new();
            msg.add_file(id, data.as_deref(), &mut tri);
            bytes_read += msg.bytes;
            binaries.append(&mut msg.binaries);
            if let Some(run) = acc.extend(msg.pairs) {
                spilled.push(run_bytes(&run));
            }
        }
        extracted = w.to_extract.len();
        mark_binaries(&mut w, &mut plan.flags, &binaries);
        let mut runs: Vec<Run> = Vec::new();
        for s in &spilled {
            runs.push(Run::raw(s).unwrap());
        }
        runs.push(Run::memory(acc.finish()).unwrap());
        let bytes = write_set("/tree", &w, base.as_ref(), over.as_ref(), runs, store.builds)
            .unwrap();
        match plan.mode {
            Mode::Overlay => {
                store.over = Some(bytes);
                store.over_writes += 1;
            }
            _ => {
                store.base = Some(bytes);
                store.base_writes += 1;
                store.over = None;
            }
        }
    } else if plan.mode == Mode::DropOverlay {
        store.over = None;
    }
    build_stats(&plan.flags, plan.reused, extracted, bytes_read)
}

fn scan(tree: &Tree, pattern: &str, opts: &SearchOptions, targets: &Vec<Target>) -> (Vec<FileResult>, usize) {
    let matcher = compile(pattern, opts).unwrap();
    let data: Vec<Option<Vec<u8>>> = targets.iter().map(|t| tree.read(&t.rel_path)).collect();
    let data = data.iter().map(|d| d.as_deref()).collect();
    scan_targets(&matcher, opts, targets, &data)
}

/// Search through base + (if present) overlay.
fn search_all(tree: &Tree, store: &Store, pattern: &str, opts: &SearchOptions) -> (Vec<FileResult>, SearchStats) {
    let matcher = compile(pattern, opts).unwrap();
    let base = store.base();
    let over = store.over.as_ref().map(|b| IndexReader::parse(b).unwrap());
    let view = View::new(&base, over.as_ref());
    let targets = select_targets(&matcher.query, &view, opts).unwrap();
    let (results, scanned) = scan(tree, pattern, opts, &targets);
    finish_search(
        results,
        &matcher.query,
        Some(view.file_count()),
        targets.len(),
        scanned,
        0,
        0,
    )
}

fn search_walk(tree: &Tree, pattern: &str, opts: &SearchOptions) -> (Vec<FileResult>, SearchStats) {
    let matcher = compile(pattern, opts).unwrap();
    let found = tree.found(opts.no_ignore);
    let targets = walk_targets(&found, opts).unwrap();
    let (results, scanned) = scan(tree, pattern, opts, &targets);
    finish_search(results, &matcher.query, None, targets.len(), scanned, 0, 0)
}

fn result_set(results: &[FileResult]) -> BTreeSet<(String, u64)> {
    let mut set = BTreeSet::new();
    for fr in results {
        for line in &fr.lines {
            set.insert((fr.rel_path.clone(), line.line_number));
        }
    }
    set
}

fn fixture() -> Tree {
    let mut t = Tree::new();
    t.write(
        "src/main.rs",
        b"fn main() {\n    println!(\"hello grix\");\n}\n",
    );
    t.write(
        "src/lib.rs",
        b"pub fn foo() -> u32 { 42 }\npub fn foobar() {}\n// TODO: cleanup\n",
    );
    t.write(
        "docs/guide.md",
        b"Searching with foo and bar.\nfoo bar baz\nFOO IN CAPS\n",
    );
    t.write("data/crlf.txt", b"alpha foo\r\nbeta\r\nfoo gamma\r\n");
    t.write(
        "data/unicode.txt",
        "日本語のテスト foo 行\nfooの行\n".as_bytes(),
    );
    t.write("data/binary.bin", b"\x00\x01\x02foo\x00bar");
    t.write("deep/a/b/c/needle.txt", b"the deep needle foo\n");
    // Large file: exceeds the tiny test cap -> scan-always path.
    let mut big = Vec::new();
    for i in 0..200 {
        big.extend_from_slice(format!("filler line {i} with foo inside\n").as_bytes());
    }
    t.write("data/big.log", &big);
    // Hidden files: indexed, but only searched with --hidden.
    t.write(".dotfile.txt", b"foo in dotfile\n");
    t.write(".hiddendir/nested.txt", b"foo nested hidden\n");
    // Ignored file must not be searched. Like ripgrep, .gitignore only
    // applies inside a git repository, so the fixture is one.
    t.git = true;
    t.write(".git/config", b"foo of git itself\n");
    t.write(".gitignore", b"ignored.txt\n");
    t.write("ignored.txt", b"foo should never appear\n");
    t
}

fn opts_small_cap() -> BuildOptions {
    BuildOptions {
        max_file_size: 1024, // force data/big.log onto the scan-always path
        ..Default::default()
    }
}

fn built() -> (Tree, Store) {
    let tree = fixture();
    let mut store = Store::new();
    build(&tree, &mut store, &opts_small_cap());
    (tree, store)
}

#[test]
fn index_search_equals_full_scan() {
    let (tree, store) = built();
    let patterns: &[(&str, bool)] = &[
        ("foo", false),
        ("foo", true),
        ("fo", false), // too short: plan must degrade to ALL, not break
        ("f.o", false),
        ("foo|bar", false),
        ("FOO", false),
        ("FOO", true),
        ("^foo", false),
        ("foo$", false),
        (r"\bfoo\b", false),
        ("fo+o?", false),
        ("[fg]oo", false),
        ("foo.*bar", false),
        ("needle", false),
        (r"println!\(", false),
        ("日本語", false),
        ("filler line 1[0-9]", false),
        ("zzz_no_match_zzz", false),
    ];
    for &(pattern, ci) in patterns {
        let opts = SearchOptions {
            case_insensitive: ci,
            ..Default::default()
        };
        let (with_index, _) = search_all(&tree, &store, pattern, &opts);
        let (walked, _) = search_walk(&tree, pattern, &opts);
        assert_eq!(
            result_set(&with_index),
            result_set(&walked),
            "index vs walk diverged for pattern {pattern:?} (ci={ci})"
        );
    }
}

#[test]
fn finds_expected_lines() {
    let (tree, store) = built();
    let opts = SearchOptions::default();
    let (results, stats) = search_all(&tree, &store, "foo", &opts);
    let set = result_set(&results);

    assert!(set.contains(&("src/lib.rs".into(), 1)));
    assert!(set.contains(&("src/lib.rs".into(), 2)));
    assert!(set.contains(&("docs/guide.md".into(), 1)));
    assert!(set.contains(&("data/crlf.txt".into(), 1)));
    assert!(set.contains(&("data/crlf.txt".into(), 3)));
    assert!(set.contains(&("data/unicode.txt".into(), 1)));
    assert!(set.contains(&("deep/a/b/c/needle.txt".into(), 1)));
    // Scan-always file is still searched.
    assert!(set.contains(&("data/big.log".into(), 1)));
    // Binary and gitignored files are not.
    assert!(!set.iter().any(|(p, _)| p == "data/binary.bin"));
    assert!(!set.iter().any(|(p, _)| p == "ignored.txt"));
    // The index actually narrowed the scan.
    assert!(stats.candidates < stats.files_in_index);
}

#[test]
fn incremental_update_reflects_edits() {
    let (mut tree, mut store) = built();
    let opts = SearchOptions::default();

    // New file + modified file + deleted file.
    tree.write("src/new_module.rs", b"const SENTINEL_XYZQ: u32 = 1;\n");
    tree.write(
        "src/lib.rs",
        b"pub fn foo() -> u32 { 42 }\n// SENTINEL_XYZQ here too\n",
    );
    tree.remove("docs/guide.md");

    let stats = build(&tree, &mut store, &opts_small_cap());
    assert!(
        stats.files_reused > 0,
        "expected unchanged files to be reused, got {stats:?}"
    );
    // The refresh went to the overlay; the base was not rewritten.
    assert!(store.over.is_some());
    assert_eq!(
        store.base_writes, 1,
        "small refresh must not rewrite the base index"
    );

    let (results, _) = search_all(&tree, &store, "SENTINEL_XYZQ", &opts);
    let set = result_set(&results);
    assert!(set.contains(&("src/new_module.rs".into(), 1)));
    assert!(set.contains(&("src/lib.rs".into(), 2)));

    // Deleted file is gone from results (tombstoned in the overlay).
    let (results, _) = search_all(&tree, &store, "Searching with", &opts);
    assert!(results.is_empty());

    // And the equivalence property still holds through the overlay.
    for pattern in ["foo", "SENTINEL_XYZQ", "fn "] {
        let (a, _) = search_all(&tree, &store, pattern, &opts);
        let (b, _) = search_walk(&tree, pattern, &opts);
        assert_eq!(result_set(&a), result_set(&b), "diverged for {pattern:?}");
    }
}

#[test]
fn multiline_search_equals_full_scan() {
    let (tree, store) = built();
    let opts = SearchOptions {
        multiline: true,
        ..Default::default()
    };
    // Patterns spanning line boundaries: the byte-trigram index knows about
    // "o\nb"-style trigrams, so narrowing must still be exact — including
    // across CRLF.
    for pattern in [
        r"42 \}\npub fn",
        r"alpha foo\r\nbeta",
        r"foo\nbar",
        r"grix\W+\}",
    ] {
        let (a, _) = search_all(&tree, &store, pattern, &opts);
        let (b, _) = search_walk(&tree, pattern, &opts);
        assert_eq!(
            result_set(&a),
            result_set(&b),
            "multiline diverged for {pattern:?}"
        );
    }
}

#[test]
fn flag_modes_equal_full_scan() {
    let (tree, store) = built();
    // Each flag combination must agree between indexed search and a full
    // walk — especially -v, where the index cannot narrow anything.
    let variants: &[SearchOptions] = &[
        SearchOptions {
            word: true,
            ..Default::default()
        },
        SearchOptions {
            invert: true,
            ..Default::default()
        },
        SearchOptions {
            only_matching: true,
            ..Default::default()
        },
        SearchOptions {
            word: true,
            invert: true,
            ..Default::default()
        },
        SearchOptions {
            invert: true,
            multiline: true,
            ..Default::default()
        },
        SearchOptions {
            smart_case: true,
            ..Default::default()
        },
    ];
    for (i, opts) in variants.iter().enumerate() {
        for pattern in ["foo", "FOO"] {
            let (a, _) = search_all(&tree, &store, pattern, opts);
            let (b, _) = search_walk(&tree, pattern, opts);
            assert_eq!(
                result_set(&a),
                result_set(&b),
                "variant {i} diverged for {pattern:?}"
            );
        }
    }
}

#[test]
fn hidden_and_no_ignore() {
    let (tree, store) = built();

    // Default: hidden files stay invisible (but they ARE in the index).
    let opts = SearchOptions::default();
    let (r, _) = search_all(&tree, &store, "foo", &opts);
    assert!(!result_set(&r).iter().any(|(p, _)| p.starts_with('.')));

    // --hidden serves them straight from the index, no rebuild.
    let opts_h = SearchOptions {
        hidden: true,
        ..Default::default()
    };
    let (r, _) = search_all(&tree, &store, "foo", &opts_h);
    let set = result_set(&r);
    assert!(set.contains(&(".dotfile.txt".into(), 1)));
    assert!(set.contains(&(".hiddendir/nested.txt".into(), 1)));

    // Equivalence with a walk under --hidden.
    let (w, _) = search_walk(&tree, "foo", &opts_h);
    assert_eq!(set, result_set(&w));

    // --no-ignore (always a walk) reaches the gitignored file.
    let opts_u = SearchOptions {
        no_ignore: true,
        ..Default::default()
    };
    let (w, _) = search_walk(&tree, "foo", &opts_u);
    assert!(result_set(&w).iter().any(|(p, _)| p == "ignored.txt"));
    // .git contents stay pruned even with everything else off.
    assert!(!result_set(&w).iter().any(|(p, _)| p.starts_with(".git/")));
}

#[test]
fn path_scope_dir_filters() {
    let (tree, store) = built();
    let opts = SearchOptions {
        path_scopes: vec!["src".into()],
        ..Default::default()
    };
    let (results, _) = search_all(&tree, &store, "foo", &opts);
    assert!(!results.is_empty());
    assert!(results.iter().all(|r| r.rel_path.starts_with("src/")));
}

#[test]
fn path_scope_single_file() {
    let (tree, store) = built();
    let opts = SearchOptions {
        path_scopes: vec!["src/lib.rs".into()],
        ..Default::default()
    };
    let (results, _) = search_all(&tree, &store, "foo", &opts);
    assert_eq!(results.len(), 1);
    assert_eq!(results[0].rel_path, "src/lib.rs");
}

#[test]
fn path_scope_multiple() {
    let (tree, store) = built();
    let opts = SearchOptions {
        path_scopes: vec!["src".into(), "docs/guide.md".into()],
        ..Default::default()
    };
    let (results, _) = search_all(&tree, &store, "foo", &opts);
    assert!(results.iter().any(|r| r.rel_path.starts_with("src/")));
    assert!(results.iter().any(|r| r.rel_path == "docs/guide.md"));
    assert!(results
        .iter()
        .all(|r| r.rel_path.starts_with("src/") || r.rel_path == "docs/guide.md"));
}

fn small_tree() -> Tree {
    let mut t = Tree::new();
    for i in 0..24 {
        let body = format!(
            "file {i}\ncommon needle_alpha shared across files\nunique_token_{i:04}\n{}\n",
            "filler ".repeat(i % 10)
        );
        t.write(&format!("f{i:02}.txt"), body.as_bytes());
    }
    t.write(
        "sub/nested.rs",
        b"fn main() { println!(\"needle_alpha\"); }\n",
    );
    t.write("bin.dat", b"\x00\x01\x02binary blob\x00");
    t.write("huge.log", "x".repeat(1000).as_bytes());
    t
}

fn opts(spill_budget: usize) -> BuildOptions {
    BuildOptions {
        max_file_size: 512, // "huge.log" (1000 B) becomes FLAG_SCAN_ALWAYS
        threads: Some(4),
        spill_budget,
    }
}

#[test]
fn spilled_build_is_byte_identical_to_in_memory() {
    let tree = small_tree();
    let mut mem = Store::new();
    let mut spill = Store::new();

    let s1 = build(&tree, &mut mem, &opts(usize::MAX));
    let s2 = build(&tree, &mut spill, &opts(2048));

    assert_eq!(s1.files_indexed, s2.files_indexed);
    assert!(s1.files_indexed >= 25);
    assert_eq!(s1.files_binary, 1);
    assert_eq!(s1.files_scan_always, 1);
    assert_eq!(
        mem.masked(),
        spill.masked(),
        "spilled build must produce the identical index"
    );

    // Both indexes open and agree on shape.
    assert_eq!(spill.base().file_count(), s1.files_total);
}

#[test]
fn unchanged_tree_writes_nothing_changes_go_to_overlay() {
    let mut tree = small_tree();
    let mut store = Store::new();
    build(&tree, &mut store, &opts(usize::MAX));

    // No-op refresh: neither base nor overlay appears/changes.
    let stats = build(&tree, &mut store, &opts(usize::MAX));
    assert_eq!(stats.files_extracted, 0);
    assert_eq!(stats.files_reused, stats.files_total);
    assert_eq!(store.base_writes, 1);
    assert!(store.over.is_none(), "no-op refresh must not create an overlay");

    // A change lands in the overlay; the base is untouched.
    tree.write("f00.txt", b"changed body needle_alpha\n");
    let stats = build(&tree, &mut store, &opts(usize::MAX));
    assert_eq!(stats.files_extracted, 1);
    assert_eq!(
        store.base_writes, 1,
        "a small change must not rewrite the base index"
    );
    let o = store.over();
    assert_eq!(o.file_count(), 1);
    assert_eq!(o.file(0).unwrap().rel_path, "f00.txt");
    assert_eq!(o.tombstones().len(), 1); // the old f00 in the base
    assert_eq!(o.index_ids().parent_id, store.base().index_ids().build_id);

    // No-op refresh on top of an overlay: overlay not rewritten either.
    let stats = build(&tree, &mut store, &opts(usize::MAX));
    assert_eq!(stats.files_extracted, 0);
    assert_eq!(store.over_writes, 1);
}

#[test]
fn overlay_tracks_delete_add_and_shrinks() {
    let mut tree = small_tree();
    let mut store = Store::new();
    build(&tree, &mut store, &opts(usize::MAX));

    tree.remove("f01.txt");
    tree.write("f02.txt", b"different needle_alpha body\n");
    tree.write("added.txt", b"brand new needle_alpha\n");
    build(&tree, &mut store, &opts(usize::MAX));

    // f02 (changed) + added.txt live in the overlay; f01 + f02 are
    // superseded base ids.
    assert_eq!(store.over().file_count(), 2);
    assert_eq!(store.over().tombstones().len(), 2);

    // Dropping the added file shrinks the overlay on the next refresh.
    tree.remove("added.txt");
    build(&tree, &mut store, &opts(usize::MAX));
    assert_eq!(store.over().file_count(), 1);
    assert_eq!(store.over().tombstones().len(), 2);
}

#[test]
fn compaction_folds_overlay_and_matches_fresh() {
    let mut tree = Tree::new();
    // Enough files that changing most of them crosses the overlay cap
    // (max(64, files/8)).
    for i in 0..90 {
        tree.write(
            &format!("m{i:03}.txt"),
            format!("file {i} needle_alpha unique_token_{i:04}\n").as_bytes(),
        );
    }
    let mut store = Store::new();
    build(&tree, &mut store, &opts(usize::MAX));

    // Small change first: overlay route.
    tree.write("m000.txt", b"changed needle_alpha zero\n");
    build(&tree, &mut store, &opts(usize::MAX));
    assert!(store.over.is_some());

    // Mass change: crosses the cap, folds into a fresh base.
    for i in 0..70 {
        tree.write(
            &format!("m{i:03}.txt"),
            format!("rewritten {i} needle_alpha beta_token_{i:04}\n").as_bytes(),
        );
    }
    let stats = build(&tree, &mut store, &opts(2048));
    assert!(stats.files_reused > 0, "unchanged files still reused");
    assert_eq!(store.base_writes, 2, "compaction must rewrite the base");
    assert!(store.over.is_none(), "compaction must drop the overlay");

    // The folded base equals a from-scratch build byte for byte.
    let mut fresh = Store::new();
    build(&tree, &mut fresh, &opts(usize::MAX));
    assert_eq!(
        store.masked(),
        fresh.masked(),
        "compacted rebuild must equal a fresh build"
    );
}

#[test]
fn a_reverted_tree_drops_the_overlay() {
    let mut tree = small_tree();
    let mut store = Store::new();
    build(&tree, &mut store, &opts(usize::MAX));
    tree.write("added.txt", b"brand new needle_alpha\n");
    build(&tree, &mut store, &opts(usize::MAX));
    assert!(store.over.is_some());
    tree.remove("added.txt");
    let stats = build(&tree, &mut store, &opts(usize::MAX));
    assert!(store.over.is_none());
    assert_eq!(store.base_writes, 1);
    assert_eq!(stats.files_extracted, 0);
    // The view is still of exactly the tree.
    let plain = SearchOptions::default();
    let (a, _) = search_all(&tree, &store, "needle_alpha", &plain);
    let (b, _) = search_walk(&tree, "needle_alpha", &plain);
    assert_eq!(result_set(&a), result_set(&b));
    assert_eq!(a.len(), 25);
}

#[test]
fn an_overlay_of_another_base_is_ignored() {
    let mut tree = small_tree();
    let mut store = Store::new();
    build(&tree, &mut store, &opts(usize::MAX));
    tree.write("added.txt", b"brand new needle_alpha\n");
    build(&tree, &mut store, &opts(usize::MAX));
    let stale = store.over.clone();
    assert!(stale.is_some());
    // A fresh base, next to which the old overlay is left behind.
    let mut fresh = Store::new();
    fresh.builds = 10;
    build(&tree, &mut fresh, &opts(usize::MAX));
    fresh.over = stale;
    let base = fresh.base();
    let over = fresh.over();
    assert_eq!(View::new(&base, Some(&over)).file_count(), base.file_count());
    let stats = build(&tree, &mut fresh, &opts(usize::MAX));
    assert_eq!(stats.files_extracted, 0);
}

#[test]
fn candidates_are_narrowed_by_the_query() {
    let (_, store) = built();
    let base = store.base();
    let view = View::new(&base, None);
    let ids = |p: &str| {
        let m = compile(p, &SearchOptions::default()).unwrap();
        candidate_ids(&m.query, &view).unwrap()
    };
    let paths: Vec<&str> = ids("needle")
        .iter()
        .map(|id| base.file(*id).unwrap().rel_path)
        .collect();
    assert_eq!(paths, vec!["deep/a/b/c/needle.txt"]);
    assert_eq!(ids("ne").len(), view.file_count());
    assert!(ids("zzz_no_match_zzz").is_empty());
}

#[test]
fn listings_agree_and_are_in_order() {
    let (tree, store) = built();
    let base = store.base();
    let view = View::new(&base, None);
    for hidden in [false, true] {
        let opts = SearchOptions {
            hidden,
            ..Default::default()
        };
        let a = index_names(&view, &opts).unwrap();
        let b = walk_names(&tree.found(false), &opts).unwrap();
        assert_eq!(a, b);
        let mut sorted = a.clone();
        sorted.sort();
        assert_eq!(a, sorted);
        assert_eq!(a.contains(&".dotfile.txt".to_string()), hidden);
        // Binary files are listed, too.
        assert!(a.contains(&"data/binary.bin".to_string()));
    }
}

#[test]
fn statistics_tell_what_was_done() {
    let (tree, store) = built();
    let opts = SearchOptions::default();
    let (results, stats) = search_all(&tree, &store, "needle", &opts);
    assert_eq!(results.len(), 1);
    assert_eq!(stats.query_display, "\"dle\" \"edl\" \"eed\" \"nee\"");
    // The one candidate and the file that is always scanned.
    assert_eq!(stats.candidates, 2);
    assert_eq!(stats.files_scanned, 2);
    assert_eq!(stats.files_matched, 1);
    assert_eq!(stats.lines_matched, 1);
    let (_, stats) = search_walk(&tree, "needle", &opts);
    assert_eq!(
        stats.query_display,
        "\"dle\" \"edl\" \"eed\" \"nee\" (no index: full scan)"
    );
    assert_eq!(stats.files_in_index, 0);
}

#[test]
fn a_corrupt_base_is_rebuilt() {
    assert!(retries(&IndexError::Corrupt("bad list")));
    assert!(retries(&IndexError::WrongVersion(2)));
    assert!(!retries(&IndexError::Io("disk full".to_string())));
}
