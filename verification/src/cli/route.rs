//! What a command line leads to: options, scopes, and where the answer comes
//! from.

use crate::cli::args::{Choices, Chosen, ColorChoice};
use crate::cli::output::Printer;
use crate::search::filter::scoped;
use crate::search::matcher::escaped;
use crate::search::options::SearchOptions;
use crate::text::{
    begins, chars_of, forward, forward_slashes, push_str, same_text, slice_of, starts_with,
    string_of, texts,
};
use vstd::prelude::*;

verus! {

/// Where the answer to a search comes from.
#[derive(Debug, Clone, Copy, PartialEq, Eq, Structural)]
pub enum Route {
    /// A full scan, as asked for. Without the ignore rules the search reaches
    /// files that the index deliberately does not cover.
    Walk,
    /// A full scan now, since the index is of an old format or corrupt; it is
    /// rebuilt in the background.
    Rebuild,
    /// The index, after a quick refresh.
    Refresh,
    /// The index as it is: asked for, or a watcher keeps it fresh.
    AsIs,
    /// A full scan now, since there is no index yet; it is built in the
    /// background.
    First,
    /// None: there is no index, and none is to be built.
    Missing,
}

/// Where the answer comes from; `usable` is of the nearest index, if any.
pub fn route(
    no_index: bool,
    no_ignore: bool,
    no_auto_index: bool,
    usable: Option<bool>,
    watcher_live: bool,
) -> (r: Route)
    ensures
        r == if no_index || no_ignore {
            Route::Walk
        } else {
            match usable {
                None => if no_auto_index {
                    Route::Missing
                } else {
                    Route::First
                },
                Some(false) => if no_auto_index {
                    Route::AsIs
                } else {
                    Route::Rebuild
                },
                Some(true) => if no_auto_index || watcher_live {
                    Route::AsIs
                } else {
                    Route::Refresh
                },
            }
        },
{
    if no_index || no_ignore {
        return Route::Walk;
    }
    match usable {
        None => if no_auto_index {
            Route::Missing
        } else {
            Route::First
        },
        Some(usable) => if !usable && !no_auto_index {
            Route::Rebuild
        } else if usable && !no_auto_index && !watcher_live {
            Route::Refresh
        } else {
            Route::AsIs
        },
    }
}

/// Whether a search without results is told that its index may be stale: it
/// was used as it is, and no watcher keeps it fresh.
pub fn hints_stale(
    no_auto_index: bool,
    no_index: bool,
    watcher_live: bool,
    files_in_index: usize,
    no_results: bool,
) -> (r: bool)
    ensures
        r == (no_results && no_auto_index && !no_index && !watcher_live && files_in_index > 0),
{
    no_results && no_auto_index && !no_index && !watcher_live && files_in_index > 0
}

/// The exit code of a search.
pub fn exit_code(found: Option<bool>) -> (r: u8)
    ensures
        r == match found {
            Some(true) => 0u8,
            Some(false) => 1,
            None => 2,
        },
{
    match found {
        Some(true) => 0,
        Some(false) => 1,
        None => 2,
    }
}

/// One of several patterns: escaped if it is a literal string, so that the
/// alternation itself stays a regex.
pub open spec fn alternative(p: Seq<char>, fixed: bool) -> Seq<char> {
    if fixed {
        escaped(p)
    } else {
        "(?:"@ + p + ")"@
    }
}

/// The first `n` of several patterns as an alternation.
pub open spec fn alternation(patterns: Seq<Seq<char>>, fixed: bool, n: int) -> Seq<char>
    decreases n,
{
    if n <= 0 {
        Seq::empty()
    } else if n == 1 {
        alternative(patterns[0], fixed)
    } else {
        alternation(patterns, fixed, n - 1) + "|"@ + alternative(patterns[n - 1], fixed)
    }
}

/// Combines patterns: repeated ones match like any of them. Returns the
/// pattern and whether it is a literal string; none when there is no pattern.
pub fn combine_patterns(patterns: &Vec<String>, fixed: bool) -> (r: Option<(String, bool)>)
    ensures
        match r {
            None => patterns@.len() == 0,
            Some((p, f)) => if patterns@.len() == 1 {
                p@ == patterns@[0]@ && f == fixed
            } else {
                patterns@.len() > 1 && p@ == alternation(
                    texts(patterns@),
                    fixed,
                    patterns@.len() as int,
                ) && !f
            },
        },
{
    if patterns.len() == 0 {
        return None;
    }
    if patterns.len() == 1 {
        return Some((patterns[0].clone(), fixed));
    }
    let ghost all = texts(patterns@);
    let mut out: Vec<char> = Vec::new();
    for i in 0..patterns.len()
        invariant
            all == texts(patterns@),
            out@ == alternation(all, fixed, i as int),
    {
        let ghost before = out@;
        if i > 0 {
            push_str(&mut out, "|");
        }
        let p = patterns[i].as_str();
        assert(p@ == all[i as int]);
        if fixed {
            let e = regex_syntax::escape(p);
            push_str(&mut out, e.as_str());
        } else {
            push_str(&mut out, "(?:");
            push_str(&mut out, p);
            push_str(&mut out, ")");
        }
        assert(out@ =~= alternation(all, fixed, i as int + 1));
    }
    Some((string_of(&out), false))
}

fn copy_texts(v: &Vec<String>) -> (r: Vec<String>)
    ensures
        texts(r@) == texts(v@),
{
    let mut r: Vec<String> = Vec::new();
    for i in 0..v.len()
        invariant
            r@.len() == i,
            forall|k: int| 0 <= k < i ==> (#[trigger] r@[k])@ == v@[k]@,
    {
        r.push(v[i].clone());
    }
    assert(texts(r@) =~= texts(v@));
    r
}

/// Context is a feature of normal line output; -l (files), -c (counts), --json
/// and -o (match-only rows) ignore it, matching grep/ripgrep.
pub open spec fn wants_context(c: Chosen) -> bool {
    !c.flags.files_only && !c.flags.counts && !c.flags.json && !c.flags.only_matching
}

/// The options of a search, within the given scopes.
pub fn search_options(c: &Choices, fixed: bool, scopes: &Vec<String>) -> (r: SearchOptions)
    ensures
        r.case_insensitive == c.flags.case_insensitive,
        r.fixed_string == fixed,
        r.matches_only == c.flags.files_only,
        r.multiline == c.flags.multiline,
        r.word == c.flags.word,
        r.invert == c.flags.invert,
        r.only_matching == c.flags.only_matching,
        r.smart_case == c.flags.smart_case,
        r.hidden == c.flags.hidden,
        r.no_ignore == c.flags.no_ignore,
        r.threads is None,
        texts(r.path_scopes@) == texts(scopes@),
        r.max_count == c.max_count,
        r.before == if wants_context(c@) {
            c.before
        } else {
            0
        },
        r.after == if wants_context(c@) {
            c.after
        } else {
            0
        },
        c.flags.files_only || c.flags.counts || c.flags.json || c.flags.only_matching ==> r.before
            == 0 && r.after == 0,
        !c.flags.files_only && !c.flags.counts && !c.flags.json && !c.flags.only_matching
            ==> r.before == c.before && r.after == c.after,
        texts(r.globs@) == texts(c.globs@),
        texts(r.types_select@) == texts(c.types_select@),
        texts(r.types_negate@) == texts(c.types_negate@),
{
    let f = c.flags;
    let context = !f.files_only && !f.counts && !f.json && !f.only_matching;
    SearchOptions {
        case_insensitive: f.case_insensitive,
        fixed_string: fixed,
        matches_only: f.files_only,
        multiline: f.multiline,
        word: f.word,
        invert: f.invert,
        only_matching: f.only_matching,
        smart_case: f.smart_case,
        hidden: f.hidden,
        no_ignore: f.no_ignore,
        threads: None,
        path_scopes: copy_texts(scopes),
        max_count: c.max_count,
        before: if context {
            c.before
        } else {
            0
        },
        after: if context {
            c.after
        } else {
            0
        },
        globs: copy_texts(&c.globs),
        types_select: copy_texts(&c.types_select),
        types_negate: copy_texts(&c.types_negate),
    }
}

/// The options of a list of files.
pub fn list_options(c: &Choices, scopes: &Vec<String>) -> (r: SearchOptions)
    ensures
        r.hidden == c.flags.hidden,
        r.no_ignore == c.flags.no_ignore,
        r.threads is None,
        texts(r.path_scopes@) == texts(scopes@),
        texts(r.globs@) == texts(c.globs@),
        texts(r.types_select@) == texts(c.types_select@),
        texts(r.types_negate@) == texts(c.types_negate@),
        !r.case_insensitive && !r.fixed_string && !r.matches_only && !r.multiline && !r.word
            && !r.invert && !r.only_matching && !r.smart_case,
        r.max_count is None,
        r.before == 0 && r.after == 0,
{
    SearchOptions {
        case_insensitive: false,
        fixed_string: false,
        matches_only: false,
        multiline: false,
        word: false,
        invert: false,
        only_matching: false,
        smart_case: false,
        hidden: c.flags.hidden,
        no_ignore: c.flags.no_ignore,
        threads: None,
        path_scopes: copy_texts(scopes),
        max_count: None,
        before: 0,
        after: 0,
        globs: copy_texts(&c.globs),
        types_select: copy_texts(&c.types_select),
        types_negate: copy_texts(&c.types_negate),
    }
}

/// How the results of a search are printed, on a terminal or not.
pub fn printer_for(c: &Choices, opts: &SearchOptions, terminal: bool) -> (r: Printer)
    ensures
        r == (Printer {
            color: match c.color {
                ColorChoice::Always => true,
                ColorChoice::Never => false,
                ColorChoice::Auto => terminal,
            },
            heading: !c.flags.no_heading && terminal && !c.flags.json,
            json: c.flags.json,
            files_only: c.flags.files_only,
            counts: c.flags.counts,
            context: opts.before > 0 || opts.after > 0,
            count_matches: (c.flags.multiline || c.flags.only_matching) && !c.flags.invert,
        }),
{
    let f = c.flags;
    Printer {
        color: match c.color {
            ColorChoice::Always => true,
            ColorChoice::Never => false,
            ColorChoice::Auto => terminal,
        },
        heading: !f.no_heading && terminal && !f.json,
        json: f.json,
        files_only: f.files_only,
        counts: f.counts,
        context: opts.before > 0 || opts.after > 0,
        // -v is line output again, so it counts lines even under -U/-o.
        count_matches: (f.multiline || f.only_matching) && !f.invert,
    }
}

/// A path argument: as it was given, and resolved, or why it cannot be.
#[derive(Debug)]
pub struct PathArg {
    pub shown: String,
    pub resolved: Result<String, String>,
}

/// Where a path lies below a root: None outside; empty for the root itself.
pub open spec fn below(path: Seq<char>, root: Seq<char>) -> Option<Seq<char>> {
    if path == root {
        Some(Seq::empty())
    } else if root.len() > 0 && root.last() == '/' {
        if begins(path, root) {
            Some(path.skip(root.len() as int))
        } else {
            None
        }
    } else if begins(path, root.push('/')) {
        Some(path.skip(root.len() as int + 1))
    } else {
        None
    }
}

/// Where a path lies below a root.
pub fn rel_below(path: &str, root: &str) -> (r: Option<String>)
    ensures
        match r {
            Some(rel) => below(path@, root@) == Some(rel@),
            None => below(path@, root@) is None,
        },
{
    if same_text(path, root) {
        return Some(String::new());
    }
    let p = chars_of(path);
    let mut prefix = chars_of(root);
    if prefix.len() == 0 || prefix[prefix.len() - 1] != '/' {
        prefix.push('/');
    }
    if !starts_with(&p, &prefix) {
        return None;
    }
    let end: usize = p.len();
    let rel = slice_of(&p, prefix.len(), end);
    assert(rel@ =~= p@.skip(prefix@.len() as int));
    Some(string_of(&rel))
}

/// The scopes of the first `n` path arguments below the root, or what is
/// wrong.
pub open spec fn scopes_below(paths: Seq<PathArg>, root: Seq<char>, n: int) -> Result<
    Seq<Seq<char>>,
    Seq<char>,
>
    decreases n,
{
    if n <= 0 {
        Ok(Seq::empty())
    } else {
        match scopes_below(paths, root, n - 1) {
            Err(e) => Err(e),
            Ok(before) => {
                let p = paths[n - 1];
                match p.resolved {
                    Err(e) => Err("cannot resolve "@ + p.shown@ + ": "@ + e@),
                    Ok(path) => match below(path@, root) {
                        None => Err(
                            p.shown@ + " is outside the indexed tree ("@ + root + ")"@,
                        ),
                        Some(rel) => if rel.len() == 0 {
                            Ok(before)
                        } else {
                            Ok(before.push(forward(rel)))
                        },
                    },
                }
            },
        }
    }
}

proof fn lemma_scope_fault_stays(paths: Seq<PathArg>, root: Seq<char>, n: int, m: int)
    requires
        0 <= n <= m,
        scopes_below(paths, root, n) is Err,
    ensures
        scopes_below(paths, root, m) == scopes_below(paths, root, n),
    decreases m,
{
    if n < m {
        lemma_scope_fault_stays(paths, root, n, m - 1);
    }
}

/// Whether a path argument is the root itself.
pub open spec fn is_root(p: PathArg, root: Seq<char>) -> bool {
    p.resolved matches Ok(path) && below(path@, root) == Some(Seq::<char>::empty())
}

/// Whether one of the first `n` path arguments is the root itself.
pub open spec fn names_root(paths: Seq<PathArg>, root: Seq<char>, n: int) -> bool {
    exists|i: int| 0 <= i < n && is_root(#[trigger] paths[i], root)
}

/// The scopes of path arguments, or what is wrong. A path equal to the root
/// yields no scope (whole tree), whatever others are given.
pub open spec fn scopes_of(paths: Seq<PathArg>, root: Seq<char>) -> Result<
    Seq<Seq<char>>,
    Seq<char>,
> {
    match scopes_below(paths, root, paths.len() as int) {
        Ok(_) if names_root(paths, root, paths.len() as int) => Ok(Seq::empty()),
        r => r,
    }
}

/// Where a path argument is the root, everything is in scope.
pub proof fn law_root_is_the_whole_tree(
    paths: Seq<PathArg>,
    root: Seq<char>,
    i: int,
    rel: Seq<char>,
)
    requires
        0 <= i < paths.len(),
        is_root(paths[i], root),
    ensures
        scopes_of(paths, root) matches Ok(scopes) ==> scoped(rel, scopes),
{
    assert(names_root(paths, root, paths.len() as int));
}

/// Turns path arguments into scopes relative to the index root.
pub fn paths_to_scopes(paths: &Vec<PathArg>, root: &str) -> (r: Result<Vec<String>, String>)
    ensures
        match r {
            Ok(scopes) => scopes_of(paths@, root@) == Ok::<Seq<Seq<char>>, Seq<char>>(
                texts(scopes@),
            ),
            Err(e) => scopes_of(paths@, root@) == Err::<Seq<Seq<char>>, Seq<char>>(e@),
        },
{
    let mut scopes: Vec<String> = Vec::new();
    let mut whole = false;
    assert(texts(scopes@) =~= Seq::<Seq<char>>::empty());
    for i in 0..paths.len()
        invariant
            scopes_below(paths@, root@, i as int) == Ok::<Seq<Seq<char>>, Seq<char>>(
                texts(scopes@),
            ),
            whole == names_root(paths@, root@, i as int),
    {
        let p = &paths[i];
        match &p.resolved {
            Err(e) => {
                let mut text = chars_of("cannot resolve ");
                push_str(&mut text, p.shown.as_str());
                push_str(&mut text, ": ");
                push_str(&mut text, e.as_str());
                proof {
                    lemma_scope_fault_stays(paths@, root@, i as int + 1, paths@.len() as int);
                }
                return Err(string_of(&text));
            },
            Ok(path) => match rel_below(path.as_str(), root) {
                None => {
                    let mut text = chars_of(p.shown.as_str());
                    push_str(&mut text, " is outside the indexed tree (");
                    push_str(&mut text, root);
                    push_str(&mut text, ")");
                    proof {
                        lemma_scope_fault_stays(paths@, root@, i as int + 1, paths@.len() as int);
                    }
                    return Err(string_of(&text));
                },
                Some(rel) => {
                    let chars = chars_of(rel.as_str());
                    if chars.len() == 0 {
                        whole = true;
                        proof {
                            assert(rel@ =~= Seq::<char>::empty());
                            assert(is_root(paths@[i as int], root@));
                        }
                    } else {
                        let scope = forward_slashes(rel.as_str());
                        let ghost before = scopes@;
                        scopes.push(scope);
                        assert(texts(scopes@) =~= texts(before).push(forward(rel@)));
                    }
                },
            },
        }
    }
    if whole {
        scopes = Vec::new();
        assert(texts(scopes@) =~= Seq::<Seq<char>>::empty());
    }
    Ok(scopes)
}

/// Several patterns stand side by side: the first by itself, and each more
/// behind a bar. A literal string is escaped, and a regex is in a group of its
/// own.
pub proof fn law_each_pattern_is_an_alternative(
    patterns: Seq<Seq<char>>,
    fixed: bool,
    p: Seq<char>,
)
    ensures
        ({
            let own = if fixed {
                escaped(p)
            } else {
                "(?:"@ + p + ")"@
            };
            let n = patterns.len() as int;
            alternation(patterns.push(p), fixed, n + 1) == if n == 0 {
                own
            } else {
                alternation(patterns, fixed, n) + "|"@ + own
            }
        }),
{
    lemma_same_alternation(patterns, patterns.push(p), fixed, patterns.len() as int);
}

proof fn lemma_same_alternation(a: Seq<Seq<char>>, b: Seq<Seq<char>>, fixed: bool, n: int)
    requires
        n <= a.len() <= b.len(),
        forall|i: int| 0 <= i < a.len() ==> a[i] == b[i],
    ensures
        alternation(a, fixed, n) == alternation(b, fixed, n),
    decreases n,
{
    if n > 1 {
        lemma_same_alternation(a, b, fixed, n - 1);
    }
}

/// A path lies below a root where the root and the way from it make up the
/// path, and only there.
pub proof fn law_below_is_the_way_from_the_root(path: Seq<char>, root: Seq<char>, rel: Seq<char>)
    ensures
        below(root, root) == Some(Seq::<char>::empty()),
        root.len() == 0 || root.last() != '/' ==> below(root.push('/') + rel, root) == Some(rel),
        root.len() > 0 && root.last() == '/' ==> below(root + rel, root) == Some(rel),
        below(path, root) == Some(rel) && path != root ==> path == if root.len() > 0 && root.last()
            == '/' {
            root + rel
        } else {
            root.push('/') + rel
        },
{
    let a = root.push('/') + rel;
    let b = root + rel;
    let n = root.len() as int;
    assert(a.take(n + 1) =~= root.push('/'));
    assert(a.skip(n + 1) =~= rel);
    assert(b.take(n) =~= root);
    assert(b.skip(n) =~= rel);
    assert(a.len() > n);
    if b == root {
        assert(rel =~= Seq::<char>::empty());
    }
    if below(path, root) == Some(rel) && path != root {
        if root.len() > 0 && root.last() == '/' {
            assert(path =~= path.take(n) + path.skip(n));
        } else {
            assert(path =~= path.take(n + 1) + path.skip(n + 1));
        }
    }
}

/// Whether a path argument lies in the tree.
pub open spec fn lies_below(p: PathArg, root: Seq<char>) -> bool {
    p.resolved matches Ok(path) && below(path@, root) is Some
}

proof fn lemma_scopes_below(paths: Seq<PathArg>, root: Seq<char>, n: int)
    requires
        0 <= n <= paths.len(),
    ensures
        scopes_below(paths, root, n) is Ok <==> forall|i: int|
            0 <= i < n ==> lies_below(#[trigger] paths[i], root),
        scopes_below(paths, root, n) matches Ok(scopes) ==> (!names_root(paths, root, n) ==> {
            &&& scopes.len() == n
            &&& forall|i: int|
                0 <= i < n ==> (#[trigger] scopes[i]) == forward(
                    below(paths[i].resolved->Ok_0@, root)->0,
                )
        }),
    decreases n,
{
    if n > 0 {
        lemma_scopes_below(paths, root, n - 1);
        assert(lies_below(paths[n - 1], root) || !lies_below(paths[n - 1], root));
        if scopes_below(paths, root, n) is Ok && !names_root(paths, root, n) {
            assert(!is_root(paths[n - 1], root));
            assert(!names_root(paths, root, n - 1));
            let rel = below(paths[n - 1].resolved->Ok_0@, root)->0;
            if rel.len() == 0 {
                assert(rel =~= Seq::<char>::empty());
            }
        }
    }
}

/// Path arguments make scopes where each lies in the tree, and a fault where
/// one does not; each but the root is a scope, from the root and with forward
/// slashes, in order.
pub proof fn law_each_path_is_a_scope(paths: Seq<PathArg>, root: Seq<char>)
    ensures
        scopes_of(paths, root) is Ok <==> forall|i: int|
            0 <= i < paths.len() ==> lies_below(#[trigger] paths[i], root),
        scopes_of(paths, root) matches Ok(scopes) ==> {
            ||| exists|i: int| 0 <= i < paths.len() && is_root(#[trigger] paths[i], root)
            ||| scopes.len() == paths.len() && forall|i: int|
                0 <= i < scopes.len() ==> (#[trigger] scopes[i]) == forward(
                    below(paths[i].resolved->Ok_0@, root)->0,
                )
        },
{
    lemma_scopes_below(paths, root, paths.len() as int);
}

} // verus!
