//! Which files a search scans, and what it reports of them.

use crate::index::candidates::Candidate;
use crate::index::format::IndexError;
use crate::index::image::{Entry, Fault, FLAG_BINARY, FLAG_HIDDEN, FLAG_SCAN_ALWAYS};
use crate::order::{by_key, sort_by_key, Keyed};
use crate::plan::{Formula, Query};
use crate::search::eval::{eval, evaluated, lists_ascend};
use crate::search::filter::{accepted, in_scope, rules_fault, rules_of, scoped, FileFilter};
use crate::search::lines::{rows, scanned, MatchLine, Row, ScanMode};
use crate::search::matcher::{
    finds_in_lines, matches_in, regex_tree, scan_with, spans_accepted, Matcher,
};
use crate::search::options::{SearchError, SearchOptions};
use crate::search::view::{alive_ids, alive_scan_always, view_file, Files, IdSet, View};
use crate::ids::sorted;
use crate::text::texts;
use crate::trigram::{ascending, is_binary, looks_binary};
use vstd::prelude::*;
use vstd::view::View as _;
use vstd::utf8::encode_utf8;

verus! {

/// A file to scan.
#[derive(Debug, PartialEq, Eq)]
pub struct Target {
    pub id: u32,
    pub rel_path: String,
    pub size: u64,
}

/// The mathematical form of `Target`.
pub struct Aim {
    pub id: u32,
    pub path: Seq<char>,
    pub size: u64,
}

impl vstd::view::View for Target {
    type V = Aim;

    open spec fn view(&self) -> Aim {
        Aim { id: self.id, path: self.rel_path@, size: self.size }
    }
}

/// The views of targets.
pub open spec fn aims(v: Seq<Target>) -> Seq<Aim> {
    Seq::new(v.len(), |i: int| v[i]@)
}

/// Whether a path passes scopes, globs and types.
pub open spec fn path_passes(path: Seq<char>, opts: SearchOptions) -> bool {
    scoped(path, texts(opts.path_scopes@)) && accepted(rules_of(opts), path)
}

/// Whether a search considers a file: not binary, hidden only on request, in
/// scope, and let through by globs and types.
pub open spec fn considers(e: Entry, opts: SearchOptions) -> bool {
    &&& e.flags & FLAG_BINARY == 0
    &&& opts.hidden || e.flags & FLAG_HIDDEN == 0
    &&& path_passes(e.path, opts)
}

/// The target for a file, if it is one. Files that are always scanned are
/// left out on request: they are added from their own section.
pub open spec fn target_of(v: Files, id: u32, skip_scan_always: bool, opts: SearchOptions) -> Result<
    Option<Aim>,
    Fault,
> {
    match view_file(v, id) {
        Err(f) => Err(f),
        Ok(e) => if !considers(e, opts) || (skip_scan_always && e.flags & FLAG_SCAN_ALWAYS != 0) {
            Ok(None)
        } else {
            Ok(Some(Aim { id, path: e.path, size: e.size }))
        },
    }
}

/// The targets for the first `n` of some ids, or the first fault.
pub open spec fn targets_of(
    v: Files,
    ids: Seq<u32>,
    skip_scan_always: bool,
    opts: SearchOptions,
    n: int,
) -> Result<Seq<Aim>, Fault>
    decreases n,
{
    if n <= 0 {
        Ok(Seq::empty())
    } else {
        match (
            targets_of(v, ids, skip_scan_always, opts, n - 1),
            target_of(v, ids[n - 1], skip_scan_always, opts),
        ) {
            (Err(f), _) => Err(f),
            (_, Err(f)) => Err(f),
            (Ok(list), Ok(None)) => Ok(list),
            (Ok(list), Ok(Some(aim))) => Ok(list.push(aim)),
        }
    }
}

/// Query hits, then the files that are always scanned.
pub open spec fn all_targets(v: Files, ids: Seq<u32>, opts: SearchOptions) -> Result<
    Seq<Aim>,
    Fault,
> {
    let scan = alive_scan_always(v);
    match (
        targets_of(v, ids, true, opts, ids.len() as int),
        targets_of(v, scan, false, opts, scan.len() as int),
    ) {
        (Err(f), _) => Err(f),
        (_, Err(f)) => Err(f),
        (Ok(a), Ok(b)) => Ok(a + b),
    }
}

proof fn lemma_targets_fail(
    v: Files,
    ids: Seq<u32>,
    skip: bool,
    opts: SearchOptions,
    k: int,
    n: int,
)
    requires
        0 <= k <= n,
        targets_of(v, ids, skip, opts, k) is Err,
    ensures
        targets_of(v, ids, skip, opts, n) == targets_of(v, ids, skip, opts, k),
    decreases n,
{
    if k < n {
        lemma_targets_fail(v, ids, skip, opts, k, n - 1);
    }
}

/// Adds the targets among `ids`.
fn push_targets(
    out: &mut Vec<Target>,
    view: &View,
    ids: &Vec<u32>,
    skip_scan_always: bool,
    filter: &FileFilter,
    opts: &SearchOptions,
) -> (r: Result<(), IndexError>)
    requires
        filter.rules() == rules_of(*opts),
    ensures
        match (r, targets_of(view.files(), ids@, skip_scan_always, *opts, ids@.len() as int)) {
            (Ok(_), Ok(more)) => aims(final(out)@) == aims(old(out)@) + more,
            (Err(e), Err(f)) => e.fault() == f,
            _ => false,
        },
{
    let ghost v = view.files();
    let ghost before = aims(out@);
    let ghost n = ids@.len() as int;
    assert(before + Seq::<Aim>::empty() =~= before);
    for i in 0..ids.len()
        invariant
            v == view.files(),
            n == ids@.len(),
            filter.rules() == rules_of(*opts),
            targets_of(v, ids@, skip_scan_always, *opts, i as int) is Ok,
            aims(out@) == before + targets_of(
                v,
                ids@,
                skip_scan_always,
                *opts,
                i as int,
            )->Ok_0,
    {
        let id: u32 = ids[i];
        let ghost so_far = targets_of(v, ids@, skip_scan_always, *opts, i as int)->Ok_0;
        let meta = match view.file(id) {
            Ok(m) => m,
            Err(e) => {
                proof {
                    lemma_targets_fail(v, ids@, skip_scan_always, *opts, i as int + 1, n);
                }
                return Err(e);
            },
        };
        let wanted = meta.flags & FLAG_BINARY == 0 && (opts.hidden || meta.flags & FLAG_HIDDEN == 0)
            && in_scope(meta.rel_path, opts.path_scopes.as_slice()) && filter.accept(meta.rel_path);
        // Scan-always files come from their own section instead.
        if wanted && !(skip_scan_always && meta.flags & FLAG_SCAN_ALWAYS != 0) {
            let ghost list = aims(out@);
            out.push(Target { id, rel_path: meta.rel_path.to_owned(), size: meta.size });
            assert(aims(out@) =~= list.push(out@.last()@));
            assert(aims(out@) =~= before + so_far.push(out@.last()@));
        }
    }
    Ok(())
}

/// The ids that a query leaves as candidates.
pub open spec fn candidates(v: Files, f: Formula, ids: Seq<u32>) -> bool {
    match evaluated(v, f) {
        Ok(None) => ids == alive_ids(v),
        Ok(Some(set)) => sorted(ids) && ids.to_set() == set && (lists_ascend(v) ==> ascending(ids)),
        Err(_) => false,
    }
}

/// The candidate ids of a query.
pub fn candidate_ids(query: &Query, view: &View) -> (r: Result<Vec<u32>, IndexError>)
    ensures
        match r {
            Ok(ids) => candidates(view.files(), query.formula(), ids@),
            Err(e) => evaluated(view.files(), query.formula()) == Err::<Option<Set<u32>>, Fault>(
                e.fault(),
            ),
        },
{
    match eval(query, view) {
        Ok(IdSet::Ids(ids)) => Ok(ids),
        Ok(IdSet::All) => Ok(view.all_ids()),
        Err(e) => Err(e),
    }
}

/// The targets of a search through an index: the query's candidates and the
/// files that are always scanned, without binary files, filtered by path,
/// globs and types. Only candidate metadata is touched: the scan-always list
/// is its own index section.
pub fn select_targets(query: &Query, view: &View, opts: &SearchOptions) -> (r: Result<
    Vec<Target>,
    SearchError,
>)
    ensures
        match rules_fault(rules_of(*opts)) {
            Some(message) => r matches Err(SearchError::BadPattern(e)) && e@ == message,
            None => match evaluated(view.files(), query.formula()) {
                Err(f) => r matches Err(SearchError::Index(e)) && e.fault() == f,
                Ok(_) => exists|ids: Seq<u32>| #[trigger]
                    candidates(view.files(), query.formula(), ids) && (match (
                        r,
                        all_targets(view.files(), ids, *opts),
                    ) {
                        (Ok(targets), Ok(list)) => aims(targets@) == list,
                        (Err(SearchError::Index(e)), Err(f)) => e.fault() == f,
                        _ => false,
                    }),
            },
        },
{
    let filter = match FileFilter::build(opts) {
        Ok(f) => f,
        Err(e) => {
            return Err(e);
        },
    };
    let ids = match candidate_ids(query, view) {
        Ok(ids) => ids,
        Err(e) => {
            return Err(SearchError::Index(e));
        },
    };
    assert(candidates(view.files(), query.formula(), ids@));
    let mut targets: Vec<Target> = Vec::new();
    assert(aims(targets@) =~= Seq::<Aim>::empty());
    match push_targets(&mut targets, view, &ids, true, &filter, opts) {
        Ok(_) => {},
        Err(e) => {
            return Err(SearchError::Index(e));
        },
    }
    let ghost hits = aims(targets@);
    assert(hits =~= targets_of(view.files(), ids@, true, *opts, ids@.len() as int)->Ok_0);
    let scan = view.scan_always();
    match push_targets(&mut targets, view, &scan, false, &filter, opts) {
        Ok(_) => {},
        Err(e) => {
            return Err(SearchError::Index(e));
        },
    }
    Ok(targets)
}

/// Whether a walk-scan considers a file.
pub open spec fn walk_considers(c: Candidate, opts: SearchOptions) -> bool {
    (opts.hidden || !c.hidden) && path_passes(c.rel_path@, opts)
}

/// The targets among the first `n` candidates.
pub open spec fn walk_targets_of(found: Seq<Candidate>, opts: SearchOptions, n: int) -> Seq<Aim>
    decreases n,
{
    if n <= 0 {
        Seq::empty()
    } else {
        let before = walk_targets_of(found, opts, n - 1);
        let c = found[n - 1];
        if walk_considers(c, opts) {
            before.push(Aim { id: 0, path: c.rel_path@, size: c.size })
        } else {
            before
        }
    }
}

/// The targets of a search without an index: every file of the tree that
/// passes the filters.
pub fn walk_targets(found: &Vec<Candidate>, opts: &SearchOptions) -> (r: Result<
    Vec<Target>,
    SearchError,
>)
    ensures
        match (r, rules_fault(rules_of(*opts))) {
            (Ok(targets), None) => aims(targets@) == walk_targets_of(
                found@,
                *opts,
                found@.len() as int,
            ),
            (Err(SearchError::BadPattern(e)), Some(message)) => e@ == message,
            _ => false,
        },
{
    let filter = match FileFilter::build(opts) {
        Ok(f) => f,
        Err(e) => {
            return Err(e);
        },
    };
    let mut targets: Vec<Target> = Vec::new();
    assert(aims(targets@) =~= Seq::<Aim>::empty());
    for i in 0..found.len()
        invariant
            filter.rules() == rules_of(*opts),
            aims(targets@) == walk_targets_of(found@, *opts, i as int),
    {
        let c = &found[i];
        if (opts.hidden || !c.hidden) && in_scope(
            c.rel_path.as_str(),
            opts.path_scopes.as_slice(),
        ) && filter.accept(c.rel_path.as_str()) {
            let ghost list = aims(targets@);
            targets.push(Target { id: 0, rel_path: c.rel_path.clone(), size: c.size });
            assert(aims(targets@) =~= list.push(targets@.last()@));
        }
    }
    Ok(targets)
}

/// The lines of a file that a search reports.
#[derive(Debug)]
pub struct FileResult {
    pub rel_path: String,
    pub lines: Vec<MatchLine>,
}

impl Keyed for FileResult {
    open spec fn key(&self) -> Seq<u8> {
        encode_utf8(self.rel_path@)
    }

    fn key_bytes(&self) -> (r: &[u8]) {
        self.rel_path.as_str().as_bytes()
    }
}

/// How options ask for a text to be scanned.
pub open spec fn mode_of(opts: SearchOptions) -> ScanMode {
    ScanMode {
        matches_only: opts.matches_only,
        multiline: opts.multiline,
        invert: opts.invert,
        only_matching: opts.only_matching,
        max_count: opts.max_count,
        before: opts.before,
        after: opts.after,
    }
}

/// What a search reports of a file's current text.
pub open spec fn reported(matcher: Matcher, opts: SearchOptions, data: Seq<u8>) -> Seq<Row> {
    if is_binary(data) {
        Seq::empty()
    } else {
        scanned(data, matches_in(matcher.regex, data, opts.multiline), mode_of(opts))
    }
}

/// Scan the current text of a target. None when there is nothing to report.
pub fn scan_target(matcher: &Matcher, opts: &SearchOptions, rel_path: &str, data: &[u8]) -> (r:
    Option<FileResult>)
    requires
        data@.len() < usize::MAX,
    ensures
        match r {
            Some(f) => f.rel_path@ == rel_path@ && rows(f.lines@) == reported(
                *matcher,
                *opts,
                data@,
            ) && f.lines@.len() > 0,
            None => reported(*matcher, *opts, data@).len() == 0,
        },
        !is_binary(data@) ==> spans_accepted(
            regex_tree(matcher.regex),
            data@,
            matches_in(matcher.regex, data@, opts.multiline),
        ),
        !is_binary(data@) && !opts.multiline ==> finds_in_lines(matcher.regex, data@, 0),
{
    if looks_binary(data) {
        return None;
    }
    let lines = scan_with(
        &matcher.regex,
        data,
        ScanMode {
            matches_only: opts.matches_only,
            multiline: opts.multiline,
            invert: opts.invert,
            only_matching: opts.only_matching,
            max_count: opts.max_count,
            before: opts.before,
            after: opts.after,
        },
    );
    if lines.len() == 0 {
        assert(rows(lines@).len() == 0);
        None
    } else {
        Some(FileResult { rel_path: rel_path.to_owned(), lines })
    }
}

/// Results in the order of their paths.
pub fn sort_results(results: Vec<FileResult>) -> (r: Vec<FileResult>)
    ensures
        by_key(r@),
        r@.to_multiset() == results@.to_multiset(),
{
    sort_by_key(results)
}

/// The number of lines that a match is on.
pub open spec fn match_count(lines: Seq<MatchLine>) -> nat
    decreases lines.len(),
{
    if lines.len() == 0 {
        0
    } else {
        match_count(lines.drop_last()) + if lines.last().is_match {
            1
        } else {
            0nat
        }
    }
}

pub open spec fn total_matches(results: Seq<FileResult>) -> nat
    decreases results.len(),
{
    if results.len() == 0 {
        0
    } else {
        total_matches(results.drop_last()) + match_count(results.last().lines@)
    }
}

/// The number of matched lines; at most `usize::MAX` are counted.
pub fn count_matched(results: &Vec<FileResult>) -> (r: usize)
    ensures
        r == if total_matches(results@) > usize::MAX {
            usize::MAX as nat
        } else {
            total_matches(results@)
        },
{
    let mut r: usize = 0;
    assert(results@.take(0) =~= Seq::<FileResult>::empty());
    for i in 0..results.len()
        invariant
            r == if total_matches(results@.take(i as int)) > usize::MAX {
                usize::MAX as nat
            } else {
                total_matches(results@.take(i as int))
            },
    {
        let lines = &results[i].lines;
        let mut n: usize = 0;
        assert(lines@.take(0) =~= Seq::<MatchLine>::empty());
        for k in 0..lines.len()
            invariant
                n == match_count(lines@.take(k as int)),
                n <= k,
        {
            assert(lines@.take(k as int + 1).drop_last() =~= lines@.take(k as int));
            if lines[k].is_match {
                n = n + 1;
            }
        }
        assert(lines@.take(lines@.len() as int) =~= lines@);
        assert(results@.take(i as int + 1).drop_last() =~= results@.take(i as int));
        r = if n > usize::MAX - r {
            usize::MAX
        } else {
            r + n
        };
    }
    assert(results@.take(results@.len() as int) =~= results@);
    r
}

} // verus!
