//! Which files the options of a search let through.

use crate::index::candidates::Candidate;
use crate::index::image::{Entry, FLAG_BINARY, FLAG_HIDDEN, FLAG_SCAN_ALWAYS};
use crate::search::filter::{
    accepted, asked_types, bad_glob, glob_fault, globs_fault, globs_ignore, rules_fault, rules_of,
    scoped, types_fault, types_ignore, under,
};
use crate::search::lines::Row;
use crate::search::matcher::Matcher;
use crate::search::options::SearchOptions;
use crate::search::run::{names_of, read_of, reported_of, walk_names_of};
use crate::search::select::{
    all_targets, considers, path_passes, reported, target_of, targets_of, walk_targets_of, Target,
};
use crate::search::view::{alive_scan_always, view_file, Files};
use crate::text::texts;
use vstd::prelude::*;

verus! {

/// The types that options ask for: those to select, then those to leave out.
pub open spec fn types_wanted(opts: SearchOptions) -> Seq<(bool, Seq<char>)> {
    opts.types_select@.map_values(|s: String| (true, s@)) + opts.types_negate@.map_values(
        |s: String| (false, s@),
    )
}

/// Whether the globs (-g) let a path through, if there are any.
pub open spec fn globs_let(opts: SearchOptions, path: Seq<char>) -> bool {
    opts.globs@.len() > 0 ==> !globs_ignore(opts.globs@.map_values(|s: String| s@), path)
}

/// Whether the types (-t, -T) let a path through, if any are asked for.
pub open spec fn types_let(opts: SearchOptions, path: Seq<char>) -> bool {
    opts.types_select@.len() > 0 || opts.types_negate@.len() > 0 ==> !types_ignore(
        types_wanted(opts),
        path,
    )
}

/// Whether a path is one of the paths asked for or below one, if any are.
pub open spec fn scopes_let(opts: SearchOptions, path: Seq<char>) -> bool {
    opts.path_scopes@.len() > 0 ==> exists|i: int|
        0 <= i < opts.path_scopes@.len() && (path == (#[trigger] opts.path_scopes@[i])@ || (
        opts.path_scopes@[i]@ + seq!['/']).is_prefix_of(path))
}

/// Whether a path is let through by the paths, the globs and the types, each
/// for itself.
pub open spec fn let_through(opts: SearchOptions, path: Seq<char>) -> bool {
    scopes_let(opts, path) && globs_let(opts, path) && types_let(opts, path)
}

/// -g, -t and -T: a file passes the filter exactly when the globs let it
/// through and the types do, whichever of the two are given.
pub proof fn law_globs_and_types_filter_each(opts: SearchOptions, path: Seq<char>)
    ensures
        accepted(rules_of(opts), path) <==> globs_let(opts, path) && types_let(opts, path),
{
    assert(texts(opts.globs@) =~= opts.globs@.map_values(|s: String| s@));
    assert(asked_types(texts(opts.types_select@), texts(opts.types_negate@)) =~= types_wanted(
        opts,
    ));
}

/// A file outside every path asked for is not searched, nor one that only
/// begins like one of them.
pub proof fn law_paths_are_scopes(opts: SearchOptions, path: Seq<char>)
    ensures
        scoped(path, texts(opts.path_scopes@)) <==> scopes_let(opts, path),
{
    let list = texts(opts.path_scopes@);
    assert forall|i: int| 0 <= i < list.len() implies (#[trigger] under(path, list[i]) <==> path
        == opts.path_scopes@[i]@ || (opts.path_scopes@[i]@ + seq!['/']).is_prefix_of(path)) by {
        let s = opts.path_scopes@[i]@;
        let p = s + seq!['/'];
        if under(path, s) && path != s {
            assert(path.take(p.len() as int) =~= p) by {
                assert forall|k: int| 0 <= k < s.len() implies path[k] == s[k] by {
                    assert(path.take(s.len() as int)[k] == s[k]);
                }
            }
            assert(p =~= path.subrange(0, p.len() as int));
        }
        if p.is_prefix_of(path) {
            assert(path.subrange(0, p.len() as int)[s.len() as int] == '/');
            assert forall|k: int| 0 <= k < s.len() implies path[k] == s[k] by {
                assert(path.subrange(0, p.len() as int)[k] == p[k]);
            }
            assert(path.take(s.len() as int) =~= s);
        }
    }
    if scoped(path, list) && list.len() > 0 {
        let i = choose|i: int| 0 <= i < list.len() && #[trigger] under(path, list[i]);
        assert(opts.path_scopes@[i]@ == list[i]);
    }
    if scopes_let(opts, path) && list.len() > 0 {
        let i = choose|i: int|
            0 <= i < opts.path_scopes@.len() && (path == (#[trigger] opts.path_scopes@[i])@ || (
            opts.path_scopes@[i]@ + seq!['/']).is_prefix_of(path));
        assert(under(path, list[i]));
    }
}

proof fn lemma_passes(opts: SearchOptions, path: Seq<char>)
    ensures
        path_passes(path, opts) <==> let_through(opts, path),
{
    law_globs_and_types_filter_each(opts, path);
    law_paths_are_scopes(opts, path);
}

proof fn lemma_bad_glob(globs: Seq<Seq<char>>, n: int)
    requires
        0 <= n <= globs.len(),
    ensures
        bad_glob(globs, n) is None <==> forall|i: int|
            0 <= i < n ==> glob_fault(#[trigger] globs[i]) is None,
    decreases n,
{
    if n > 0 {
        lemma_bad_glob(globs, n - 1);
        if bad_glob(globs, n) is Some && bad_glob(globs, n - 1) is None {
            assert(glob_fault(globs[n - 1]) is Some);
        }
    }
}

/// A filter can be made exactly when nothing is wrong with the globs, if there
/// are any, and with the types, if any are asked for.
pub proof fn law_filter_is_refused_for_a_fault(opts: SearchOptions)
    ensures
        rules_fault(rules_of(opts)) is None <==> {
            &&& forall|i: int|
                0 <= i < opts.globs@.len() ==> glob_fault((#[trigger] opts.globs@[i])@) is None
            &&& opts.globs@.len() > 0 ==> globs_fault(
                opts.globs@.map_values(|s: String| s@),
            ) is None
            &&& opts.types_select@.len() > 0 || opts.types_negate@.len() > 0 ==> types_fault(
                types_wanted(opts),
            ) is None
        },
{
    let globs = texts(opts.globs@);
    assert(globs =~= opts.globs@.map_values(|s: String| s@));
    assert(asked_types(texts(opts.types_select@), texts(opts.types_negate@)) =~= types_wanted(
        opts,
    ));
    lemma_bad_glob(globs, globs.len() as int);
    assert((forall|i: int| 0 <= i < globs.len() ==> glob_fault(#[trigger] globs[i]) is None)
        <==> forall|i: int|
        0 <= i < opts.globs@.len() ==> glob_fault((#[trigger] opts.globs@[i])@) is None) by {
        if forall|i: int| 0 <= i < globs.len() ==> glob_fault(#[trigger] globs[i]) is None {
            assert forall|i: int| 0 <= i < opts.globs@.len() implies glob_fault(
                (#[trigger] opts.globs@[i])@,
            ) is None by {
                assert(globs[i] == opts.globs@[i]@);
            }
        }
    }
}

/// A file of the index is considered exactly when it is no binary one, is not
/// hidden unless hidden ones are asked for, and is let through.
pub proof fn law_index_considers(e: Entry, opts: SearchOptions)
    ensures
        considers(e, opts) <==> e.flags & FLAG_BINARY == 0 && (e.flags & FLAG_HIDDEN != 0
            ==> opts.hidden) && let_through(opts, e.path),
{
    lemma_passes(opts, e.path);
}

/// The targets of a full scan are exactly the files found that are not hidden,
/// unless hidden ones are asked for, and that are let through.
pub proof fn law_walk_scans_what_is_let_through(
    found: Seq<Candidate>,
    opts: SearchOptions,
    path: Seq<char>,
)
    ensures
        (exists|k: int|
            0 <= k < walk_targets_of(found, opts, found.len() as int).len() && (
            #[trigger] walk_targets_of(found, opts, found.len() as int)[k]).path == path)
            <==> exists|i: int|
            0 <= i < found.len() && (#[trigger] found[i]).rel_path@ == path && (found[i].hidden
                ==> opts.hidden) && let_through(opts, path),
{
    lemma_walk(found, opts, path, found.len() as int);
}

proof fn lemma_walk(found: Seq<Candidate>, opts: SearchOptions, path: Seq<char>, n: int)
    requires
        0 <= n <= found.len(),
    ensures
        (exists|k: int|
            0 <= k < walk_targets_of(found, opts, n).len() && (#[trigger] walk_targets_of(
                found,
                opts,
                n,
            )[k]).path == path) <==> exists|i: int|
            0 <= i < n && (#[trigger] found[i]).rel_path@ == path && (found[i].hidden
                ==> opts.hidden) && let_through(opts, path),
    decreases n,
{
    if n > 0 {
        lemma_walk(found, opts, path, n - 1);
        let (a, b) = (walk_targets_of(found, opts, n - 1), walk_targets_of(found, opts, n));
        lemma_passes(opts, found[n - 1].rel_path@);
        if exists|k: int| 0 <= k < b.len() && (#[trigger] b[k]).path == path {
            let k = choose|k: int| 0 <= k < b.len() && (#[trigger] b[k]).path == path;
            if k < a.len() {
                assert(a[k] == b[k]);
            } else {
                assert(found[n - 1].rel_path@ == path);
            }
        }
        if exists|i: int|
            0 <= i < n && (#[trigger] found[i]).rel_path@ == path && (found[i].hidden
                ==> opts.hidden) && let_through(opts, path) {
            let i = choose|i: int|
                0 <= i < n && (#[trigger] found[i]).rel_path@ == path && (found[i].hidden
                    ==> opts.hidden) && let_through(opts, path);
            if i < n - 1 {
                let k = choose|k: int| 0 <= k < a.len() && (#[trigger] a[k]).path == path;
                assert(b[k] == a[k]);
            } else {
                assert(b.last().path == path);
            }
        }
    }
}

/// Every target of a search through the index is a file of the index that is
/// considered, under its own path and size.
pub proof fn law_index_targets_are_let_through(
    v: Files,
    ids: Seq<u32>,
    opts: SearchOptions,
    k: int,
)
    requires
        all_targets(v, ids, opts) matches Ok(list) && 0 <= k < list.len(),
    ensures
        ({
            let aim = all_targets(v, ids, opts)->Ok_0[k];
            view_file(v, aim.id) matches Ok(e) && e.path == aim.path && e.size == aim.size
                && e.flags & FLAG_BINARY == 0 && (e.flags & FLAG_HIDDEN != 0 ==> opts.hidden)
                && let_through(opts, e.path)
        }),
{
    let scan = alive_scan_always(v);
    lemma_targets(v, ids, true, opts, ids.len() as int);
    lemma_targets(v, scan, false, opts, scan.len() as int);
    let a = targets_of(v, ids, true, opts, ids.len() as int)->Ok_0;
    if k < a.len() {
        assert((a + targets_of(v, scan, false, opts, scan.len() as int)->Ok_0)[k] == a[k]);
        law_index_considers(view_file(v, a[k].id)->Ok_0, opts);
    } else {
        let b = targets_of(v, scan, false, opts, scan.len() as int)->Ok_0;
        assert((a + b)[k] == b[k - a.len()]);
        law_index_considers(view_file(v, b[k - a.len()].id)->Ok_0, opts);
    }
}

proof fn lemma_targets(v: Files, ids: Seq<u32>, skip: bool, opts: SearchOptions, n: int)
    requires
        0 <= n <= ids.len(),
    ensures
        targets_of(v, ids, skip, opts, n) matches Ok(list) ==> forall|k: int|
            0 <= k < list.len() ==> (view_file(v, (#[trigger] list[k]).id) matches Ok(e) && e.path
                == list[k].path && e.size == list[k].size && considers(e, opts)),
    decreases n,
{
    if n > 0 {
        lemma_targets(v, ids, skip, opts, n - 1);
        if let Ok(list) = targets_of(v, ids, skip, opts, n) {
            let before = targets_of(v, ids, skip, opts, n - 1)->Ok_0;
            assert forall|k: int| 0 <= k < list.len() implies (view_file(v, (#[trigger] list[k]).id)
                matches Ok(e) && e.path == list[k].path && e.size == list[k].size && considers(
                e,
                opts,
            )) by {
                if k < before.len() {
                    assert(list[k] == before[k]);
                }
            }
        }
    }
}

/// Every candidate of a query that is considered is a target, and so is every
/// considered file that is always scanned.
pub proof fn law_considered_candidates_are_targets(
    v: Files,
    ids: Seq<u32>,
    opts: SearchOptions,
    id: u32,
)
    requires
        all_targets(v, ids, opts) is Ok,
        view_file(v, id) matches Ok(e) && e.flags & FLAG_BINARY == 0 && (e.flags & FLAG_HIDDEN
            != 0 ==> opts.hidden) && let_through(opts, e.path) && ((ids.contains(id) && e.flags
            & FLAG_SCAN_ALWAYS == 0) || alive_scan_always(v).contains(id)),
    ensures
        exists|k: int|
            0 <= k < all_targets(v, ids, opts)->Ok_0.len() && (#[trigger] all_targets(
                v,
                ids,
                opts,
            )->Ok_0[k]).id == id,
{
    let e = view_file(v, id)->Ok_0;
    let scan = alive_scan_always(v);
    let all = all_targets(v, ids, opts)->Ok_0;
    law_index_considers(e, opts);
    let a = targets_of(v, ids, true, opts, ids.len() as int)->Ok_0;
    let b = targets_of(v, scan, false, opts, scan.len() as int)->Ok_0;
    assert(all == a + b);
    if ids.contains(id) && e.flags & FLAG_SCAN_ALWAYS == 0 {
        let i = choose|i: int| 0 <= i < ids.len() && ids[i] == id;
        let k = lemma_target_of(v, ids, true, opts, ids.len() as int, i);
        assert(all[k].id == id);
    } else {
        let i = choose|i: int| 0 <= i < scan.len() && scan[i] == id;
        let k = lemma_target_of(v, scan, false, opts, scan.len() as int, i);
        assert(all[a.len() + k].id == id);
    }
}

proof fn lemma_target_of(
    v: Files,
    ids: Seq<u32>,
    skip: bool,
    opts: SearchOptions,
    n: int,
    i: int,
) -> (k: int)
    requires
        0 <= i < n <= ids.len(),
        targets_of(v, ids, skip, opts, n) is Ok,
        target_of(v, ids[i], skip, opts) matches Ok(Some(_)),
    ensures
        0 <= k < targets_of(v, ids, skip, opts, n)->Ok_0.len(),
        targets_of(v, ids, skip, opts, n)->Ok_0[k].id == ids[i],
    decreases n,
{
    if i == n - 1 {
        targets_of(v, ids, skip, opts, n)->Ok_0.len() - 1
    } else {
        lemma_target_of(v, ids, skip, opts, n - 1, i)
    }
}

/// --files from a walk: exactly the files found that a search would consider.
pub proof fn law_walk_lists_what_is_let_through(
    found: Seq<Candidate>,
    opts: SearchOptions,
    path: Seq<char>,
)
    ensures
        walk_names_of(found, opts, found.len() as int).contains(path) <==> exists|i: int|
            0 <= i < found.len() && (#[trigger] found[i]).rel_path@ == path && (found[i].hidden
                ==> opts.hidden) && let_through(opts, path),
        walk_names_of(found, opts, found.len() as int) == Seq::new(
            walk_targets_of(found, opts, found.len() as int).len(),
            |k: int| walk_targets_of(found, opts, found.len() as int)[k].path,
        ),
{
    let n = found.len() as int;
    lemma_names_are_targets(found, opts, n);
    law_walk_scans_what_is_let_through(found, opts, path);
    let (a, b) = (walk_names_of(found, opts, n), walk_targets_of(found, opts, n));
    if a.contains(path) {
        let k = choose|k: int| 0 <= k < a.len() && a[k] == path;
        assert(b[k].path == path);
    }
    if exists|k: int| 0 <= k < b.len() && (#[trigger] b[k]).path == path {
        let k = choose|k: int| 0 <= k < b.len() && (#[trigger] b[k]).path == path;
        assert(a[k] == path);
    }
}

proof fn lemma_names_are_targets(found: Seq<Candidate>, opts: SearchOptions, n: int)
    requires
        0 <= n <= found.len(),
    ensures
        walk_names_of(found, opts, n) == Seq::new(
            walk_targets_of(found, opts, n).len(),
            |k: int| walk_targets_of(found, opts, n)[k].path,
        ),
    decreases n,
{
    if n > 0 {
        lemma_names_are_targets(found, opts, n - 1);
    }
    assert(walk_names_of(found, opts, n) =~= Seq::new(
        walk_targets_of(found, opts, n).len(),
        |k: int| walk_targets_of(found, opts, n)[k].path,
    ));
}

/// --files from the index: exactly the given files that are not hidden, unless
/// hidden ones are asked for, and that are let through.
pub proof fn law_index_lists_what_is_let_through(
    v: Files,
    ids: Seq<u32>,
    opts: SearchOptions,
    path: Seq<char>,
    n: int,
)
    requires
        0 <= n <= ids.len(),
        names_of(v, ids, opts, n) is Ok,
    ensures
        names_of(v, ids, opts, n)->Ok_0.contains(path) <==> exists|i: int|
            0 <= i < n && (view_file(v, #[trigger] ids[i]) matches Ok(e) && e.path == path && (
            e.flags & FLAG_HIDDEN != 0 ==> opts.hidden) && let_through(opts, path)),
    decreases n,
{
    if n > 0 {
        law_index_lists_what_is_let_through(v, ids, opts, path, n - 1);
        let e = view_file(v, ids[n - 1])->Ok_0;
        lemma_passes(opts, e.path);
        let (a, b) = (names_of(v, ids, opts, n - 1)->Ok_0, names_of(v, ids, opts, n)->Ok_0);
        if a.contains(path) {
            let k = choose|k: int| 0 <= k < a.len() && a[k] == path;
            assert(b[k] == path);
        }
        if b.contains(path) && !a.contains(path) {
            let k = choose|k: int| 0 <= k < b.len() && b[k] == path;
            if k < a.len() {
                assert(a[k] == path);
            }
            assert(e.path == path);
            assert(ids[n - 1] == ids[n - 1]);
        }
        if exists|i: int|
            0 <= i < n && (view_file(v, #[trigger] ids[i]) matches Ok(e) && e.path == path && (
            e.flags & FLAG_HIDDEN != 0 ==> opts.hidden) && let_through(opts, path)) {
            let i = choose|i: int|
                0 <= i < n && (view_file(v, #[trigger] ids[i]) matches Ok(e) && e.path == path && (
                e.flags & FLAG_HIDDEN != 0 ==> opts.hidden) && let_through(opts, path));
            if i == n - 1 {
                assert(b.last() == path);
            }
        }
    }
}

/// A scan reports each target whose text was read and has something to report,
/// in the order of the targets, and nothing else.
pub proof fn law_scan_reports_each_target(
    matcher: Matcher,
    opts: SearchOptions,
    targets: Seq<Target>,
    data: Seq<Option<&[u8]>>,
    n: int,
)
    requires
        0 <= n < data.len(),
        targets.len() == data.len(),
    ensures
        ({
            let before = reported_of(matcher, opts, targets, data, n);
            let all = reported_of(matcher, opts, targets, data, n + 1);
            let here = match data[n] {
                Some(d) => reported(matcher, opts, d@),
                None => Seq::<Row>::empty(),
            };
            &&& here.len() == 0 ==> all == before
            &&& here.len() > 0 ==> all == before + seq![(targets[n].rel_path@, here)]
            &&& read_of(data, n + 1) == read_of(data, n) + (if data[n] is Some {
                1nat
            } else {
                0
            })
        }),
        reported_of(matcher, opts, targets, data, 0).len() == 0,
        read_of(data, 0) == 0,
{
    let before = reported_of(matcher, opts, targets, data, n);
    if let Some(d) = data[n] {
        let here = reported(matcher, opts, d@);
        if here.len() > 0 {
            assert(before.push((targets[n].rel_path@, here)) =~= before + seq![
                (targets[n].rel_path@, here),
            ]);
        }
    }
}

} // verus!
