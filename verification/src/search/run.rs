//! The rest of a search: lists of files, the order of results, statistics.

use crate::index::candidates::Candidate;
use crate::index::image::{Entry, Fault, FLAG_HIDDEN};
use crate::order::{by_key, sort_by_key, Keyed};
use crate::plan::{shown, Query};
use crate::search::filter::{in_scope, rules_fault, rules_of, FileFilter};
use crate::search::lines::{rows, Row};
use crate::search::matcher::Matcher;
use crate::search::options::{SearchError, SearchOptions, SearchStats};
use crate::search::select::{
    count_matched, path_passes, reported, scan_target, sort_results, total_matches, FileResult,
    Target,
};
use crate::search::view::{alive_ids, view_file, Files, View};
use crate::text::{chars_of, push_str, string_of, texts};
use vstd::prelude::*;
use vstd::utf8::encode_utf8;
use vstd::view::View as _;

verus! {

/// How many threads to use: as many as are wanted, else as many as the machine
/// says it runs at a time, else 4.
pub fn thread_count(wanted: Option<usize>, available: Option<usize>) -> (n: usize)
    ensures
        n == match (wanted, available) {
            (Some(w), _) => w,
            (None, Some(a)) => a,
            (None, None) => 4,
        },
{
    match (wanted, available) {
        (Some(w), _) => w,
        (None, Some(a)) => a,
        (None, None) => 4,
    }
}

/// How many threads scan `targets` files. File opens dominate the scan on
/// Windows and block their thread, so more threads than cores run to overlap
/// that latency.
pub fn scan_threads(threads: usize, targets: usize) -> (n: usize)
    ensures
        ({
            let wanted = if threads * 4 < 1 {
                1
            } else if threads * 4 > 64 {
                64
            } else {
                threads * 4
            };
            let most = if targets < 1 {
                1
            } else {
                targets as int
            };
            n == if wanted < most {
                wanted
            } else {
                most
            }
        }),
{
    let mut n: usize = 64;
    if threads < 16 {
        n = threads * 4;
    }
    if n < 1 {
        n = 1;
    }
    let mut most: usize = targets;
    if most < 1 {
        most = 1;
    }
    if n > most {
        n = most;
    }
    n
}

/// What is reported of the first `n` targets. A text that could not be read is
/// skipped.
pub open spec fn reported_of(
    matcher: Matcher,
    opts: SearchOptions,
    targets: Seq<Target>,
    data: Seq<Option<&[u8]>>,
    n: int,
) -> Seq<(Seq<char>, Seq<Row>)>
    decreases n,
{
    if n <= 0 {
        Seq::empty()
    } else {
        let before = reported_of(matcher, opts, targets, data, n - 1);
        match data[n - 1] {
            Some(d) if reported(matcher, opts, d@).len() > 0 => before.push(
                (targets[n - 1].rel_path@, reported(matcher, opts, d@)),
            ),
            _ => before,
        }
    }
}

/// How many of the first `n` texts were read.
pub open spec fn read_of(data: Seq<Option<&[u8]>>, n: int) -> nat
    decreases n,
{
    if n <= 0 {
        0
    } else if data[n - 1] is Some {
        read_of(data, n - 1) + 1
    } else {
        read_of(data, n - 1)
    }
}

/// The paths and rows of results.
pub open spec fn reports_in(results: Seq<FileResult>) -> Seq<(Seq<char>, Seq<Row>)> {
    Seq::new(results.len(), |i: int| (results[i].rel_path@, rows(results[i].lines@)))
}

/// Scans targets whose texts were read as far as possible. Returns what there
/// is to report, and how many texts were scanned.
pub fn scan_targets(
    matcher: &Matcher,
    opts: &SearchOptions,
    targets: &Vec<Target>,
    data: &Vec<Option<&[u8]>>,
) -> (r: (Vec<FileResult>, usize))
    requires
        targets@.len() == data@.len(),
        forall|i: int|
            0 <= i < data@.len() ==> ((#[trigger] data@[i]) matches Some(d) ==> d@.len()
                < usize::MAX),
    ensures
        reports_in(r.0@) == reported_of(
            *matcher,
            *opts,
            targets@,
            data@,
            data@.len() as int,
        ),
        r.1 == read_of(data@, data@.len() as int),
{
    let mut results: Vec<FileResult> = Vec::new();
    let mut scanned: usize = 0;
    assert(reports_in(results@) =~= Seq::<(Seq<char>, Seq<Row>)>::empty());
    for i in 0..targets.len()
        invariant
            targets@.len() == data@.len(),
            forall|k: int|
                0 <= k < data@.len() ==> ((#[trigger] data@[k]) matches Some(d) ==> d@.len()
                    < usize::MAX),
            reports_in(results@) == reported_of(*matcher, *opts, targets@, data@, i as int),
            scanned == read_of(data@, i as int),
            scanned <= i,
    {
        let ghost before = results@;
        assert(data@[i as int] matches Some(d) ==> d@.len() < usize::MAX);
        match data[i] {
            Some(d) => {
                scanned += 1;
                match scan_target(matcher, opts, targets[i].rel_path.as_str(), d) {
                    Some(f) => {
                        assert(rows(f.lines@).len() > 0);
                        results.push(f);
                        assert(reports_in(results@) =~= reports_in(before).push(
                            (targets@[i as int].rel_path@, reported(*matcher, *opts, d@)),
                        ));
                    },
                    None => {},
                }
            },
            None => {},
        }
    }
    (results, scanned)
}

/// A search's results in the order of their paths, and its statistics.
/// `files_in_index` is None for a full scan.
pub fn finish_search(
    results: Vec<FileResult>,
    query: &Query,
    files_in_index: Option<usize>,
    candidates: usize,
    files_scanned: usize,
    lookup_micros: u128,
    scan_micros: u128,
) -> (r: (Vec<FileResult>, SearchStats))
    ensures
        by_key(r.0@),
        r.0@.to_multiset() == results@.to_multiset(),
        r.1.query_display@ == match files_in_index {
            Some(_) => shown(query.formula()),
            None => shown(query.formula()) + " (no index: full scan)"@,
        },
        r.1.files_in_index == match files_in_index {
            Some(n) => n,
            None => 0,
        },
        r.1.candidates == candidates,
        r.1.files_scanned == files_scanned,
        r.1.files_matched == results@.len(),
        r.1.lines_matched == if total_matches(r.0@) > usize::MAX {
            usize::MAX as nat
        } else {
            total_matches(r.0@)
        },
        r.1.plan_micros == 0,
        r.1.lookup_micros == lookup_micros,
        r.1.scan_micros == scan_micros,
{
    let files_matched: usize = results.len();
    let results = sort_results(results);
    let plan = query.display();
    let mut text = chars_of(plan.as_str());
    if files_in_index.is_none() {
        push_str(&mut text, " (no index: full scan)");
    }
    let stats = SearchStats {
        query_display: string_of(&text),
        files_in_index: match files_in_index {
            Some(n) => n,
            None => 0,
        },
        candidates,
        files_scanned,
        files_matched,
        lines_matched: count_matched(&results),
        plan_micros: 0,
        lookup_micros,
        scan_micros,
    };
    (results, stats)
}

impl Keyed for String {
    open spec fn key(&self) -> Seq<u8> {
        encode_utf8(self@)
    }

    fn key_bytes(&self) -> (r: &[u8]) {
        self.as_str().as_bytes()
    }
}

/// Strings in another order are their texts in another order.
proof fn lemma_texts_reordered(a: Seq<String>, b: Seq<String>)
    requires
        a.to_multiset() == b.to_multiset(),
    ensures
        texts(a).to_multiset() == texts(b).to_multiset(),
    decreases a.len(),
{
    a.to_multiset_ensures();
    b.to_multiset_ensures();
    if a.len() > 0 {
        let x = a.last();
        assert(a.contains(x));
        assert(b.to_multiset().count(x) > 0);
        let i = choose|i: int| 0 <= i < b.len() && b[i] == x;
        assert(b.remove(i).to_multiset() =~= a.drop_last().to_multiset()) by {
            assert(a.drop_last() =~= a.remove(a.len() - 1));
        }
        lemma_texts_reordered(a.drop_last(), b.remove(i));
        assert(texts(a.drop_last()) =~= texts(a).remove(a.len() - 1));
        assert(texts(b.remove(i)) =~= texts(b).remove(i));
        texts(a).to_multiset_ensures();
        texts(b).to_multiset_ensures();
        assert(texts(a).to_multiset() =~= texts(a).to_multiset().remove(x@).insert(x@));
        assert(texts(b).to_multiset() =~= texts(b).to_multiset().remove(x@).insert(x@));
    } else {
        assert(texts(a) =~= texts(b));
    }
}

/// Names in order.
fn sorted_names(names: Vec<String>) -> (r: Vec<String>)
    ensures
        by_key(r@),
        texts(r@).to_multiset() == texts(names@).to_multiset(),
{
    let ghost before = names@;
    let sorted = sort_by_key(names);
    proof {
        lemma_texts_reordered(sorted@, before);
    }
    sorted
}

/// Whether a list of files has one: hidden only on request, in scope, and let
/// through by globs and types.
pub open spec fn lists(e: Entry, opts: SearchOptions) -> bool {
    (opts.hidden || e.flags & FLAG_HIDDEN == 0) && path_passes(e.path, opts)
}

/// The files to list among the first `n` of the given ones, or what is wrong.
pub open spec fn names_of(v: Files, ids: Seq<u32>, opts: SearchOptions, n: int) -> Result<
    Seq<Seq<char>>,
    Fault,
>
    decreases n,
{
    if n <= 0 {
        Ok(Seq::empty())
    } else {
        match names_of(v, ids, opts, n - 1) {
            Err(f) => Err(f),
            Ok(before) => match view_file(v, ids[n - 1]) {
                Err(f) => Err(f),
                Ok(e) => if lists(e, opts) {
                    Ok(before.push(e.path))
                } else {
                    Ok(before)
                },
            },
        }
    }
}

/// The files to list among the first `n` candidates.
pub open spec fn walk_names_of(found: Seq<Candidate>, opts: SearchOptions, n: int) -> Seq<Seq<char>>
    decreases n,
{
    if n <= 0 {
        Seq::empty()
    } else if (opts.hidden || !found[n - 1].hidden) && path_passes(found[n - 1].rel_path@, opts) {
        walk_names_of(found, opts, n - 1).push(found[n - 1].rel_path@)
    } else {
        walk_names_of(found, opts, n - 1)
    }
}

proof fn lemma_names_fault_stays(v: Files, ids: Seq<u32>, opts: SearchOptions, n: int, m: int)
    requires
        0 <= n <= m,
        names_of(v, ids, opts, n) is Err,
    ensures
        names_of(v, ids, opts, m) == names_of(v, ids, opts, n),
    decreases m,
{
    if n < m {
        lemma_names_fault_stays(v, ids, opts, n, m - 1);
    }
}

/// Every file that a search would consider, from the index, in
/// order: a table read, no directory walk at all.
pub fn index_names(view: &View, opts: &SearchOptions) -> (r: Result<Vec<String>, SearchError>)
    ensures
        match rules_fault(rules_of(*opts)) {
            Some(message) => r matches Err(SearchError::BadPattern(e)) && e@ == message,
            None => ({
                let ids = alive_ids(view.files());
                match (r, names_of(view.files(), ids, *opts, ids.len() as int)) {
                    (Ok(names), Ok(list)) => by_key(names@) && texts(names@).to_multiset()
                        == list.to_multiset(),
                    (Err(SearchError::Index(e)), Err(f)) => e.fault() == f,
                    _ => false,
                }
            }),
        },
{
    let filter = match FileFilter::build(opts) {
        Ok(f) => f,
        Err(e) => {
            return Err(e);
        },
    };
    let ids = view.all_ids();
    let ghost v = view.files();
    let mut names: Vec<String> = Vec::new();
    assert(texts(names@) =~= Seq::<Seq<char>>::empty());
    for i in 0..ids.len()
        invariant
            v == view.files(),
            ids@ == alive_ids(v),
            rules_fault(rules_of(*opts)) is None,
            filter.rules() == rules_of(*opts),
            names_of(v, ids@, *opts, i as int) == Ok::<Seq<Seq<char>>, Fault>(texts(names@)),
    {
        let meta = match view.file(ids[i]) {
            Ok(m) => m,
            Err(e) => {
                proof {
                    lemma_names_fault_stays(v, ids@, *opts, i as int + 1, ids@.len() as int);
                }
                return Err(SearchError::Index(e));
            },
        };
        if (opts.hidden || meta.flags & FLAG_HIDDEN == 0) && in_scope(
            meta.rel_path,
            opts.path_scopes.as_slice(),
        ) && filter.accept(meta.rel_path) {
            let ghost before = names@;
            names.push(meta.rel_path.to_owned());
            assert(texts(names@) =~= texts(before).push(meta.rel_path@));
        }
    }
    Ok(sorted_names(names))
}

/// Every file that a search would consider, from a walk of the tree, in order.
pub fn walk_names(found: &Vec<Candidate>, opts: &SearchOptions) -> (r: Result<
    Vec<String>,
    SearchError,
>)
    ensures
        match (r, rules_fault(rules_of(*opts))) {
            (Ok(names), None) => by_key(names@) && texts(names@).to_multiset() == walk_names_of(
                found@,
                *opts,
                found@.len() as int,
            ).to_multiset(),
            (Err(SearchError::BadPattern(e)), Some(message)) => e@ == message,
            _ => false,
        },
{
    let filter = match FileFilter::build(opts) {
        Ok(f) => f,
        Err(e) => {
            return Err(e);
        },
    };
    let mut names: Vec<String> = Vec::new();
    assert(texts(names@) =~= Seq::<Seq<char>>::empty());
    for i in 0..found.len()
        invariant
            rules_fault(rules_of(*opts)) is None,
            filter.rules() == rules_of(*opts),
            texts(names@) == walk_names_of(found@, *opts, i as int),
    {
        let c = &found[i];
        if (opts.hidden || !c.hidden) && in_scope(
            c.rel_path.as_str(),
            opts.path_scopes.as_slice(),
        ) && filter.accept(c.rel_path.as_str()) {
            let ghost before = names@;
            names.push(c.rel_path.clone());
            assert(texts(names@) =~= texts(before).push(c.rel_path@));
        }
    }
    Ok(sorted_names(names))
}

} // verus!
