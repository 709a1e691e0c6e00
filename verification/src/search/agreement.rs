//! Searching through the index and scanning the whole tree agree.

use crate::index::candidates::Candidate;
use crate::index::image::{Fault, FLAG_BINARY, FLAG_HIDDEN, FLAG_SCAN_ALWAYS};
use crate::index::postings::all_ids;
use crate::plan::info::planned;
use crate::plan::soundness::law_plan_admits_every_match;
use crate::plan::{admits, lemma_admits, Formula};
use crate::search::eval::{evaluated, evaluated_and, evaluated_or, lemma_list_tidy, lemma_live};
use crate::search::lines::{law_scan_needs_a_match, scanned, Row};
use crate::search::matcher::spans_accepted;
use crate::search::options::SearchOptions;
use crate::search::select::{
    all_targets, candidates, considers, mode_of, target_of, targets_of, walk_considers,
    walk_targets_of, Aim,
};
use crate::search::view::{
    alive_ids, alive_scan_always, base_count, live, overlay_count, shifted, view_file,
    view_list, Files,
};
use crate::syntax::Tree;
use crate::trigram::{is_binary, trigrams};
use vstd::prelude::*;

verus! {

/// Whether the lists of the view hold a file for each of its trigrams, as far
/// as they say anything.
pub open spec fn listed(v: Files, id: u32, tris: Set<u32>) -> bool {
    forall|t: u32| #[trigger]
        tris.contains(t) ==> (view_list(v, t) matches Ok(Some(ids)) ==> ids.contains(id))
}

/// Whether the view tells the truth about a file with the text `data`: its
/// trigrams are listed unless it is too large or binary, a file that is too
/// large is always scanned, and a file called binary is.
pub open spec fn faithful(v: Files, id: u32, data: Seq<u8>) -> bool {
    match view_file(v, id) {
        Ok(e) => {
            &&& e.flags & FLAG_BINARY != 0 ==> is_binary(data)
            &&& e.flags & FLAG_BINARY == 0 && e.flags & FLAG_SCAN_ALWAYS != 0
                ==> alive_scan_always(v).contains(id)
            &&& e.flags & FLAG_BINARY == 0 && e.flags & FLAG_SCAN_ALWAYS == 0 ==> listed(
                v,
                id,
                trigrams(data),
            )
        },
        Err(_) => false,
    }
}

/// Evaluation keeps every file whose trigrams the query admits.
pub proof fn law_evaluation_keeps_admitted(v: Files, f: Formula, id: u32, tris: Set<u32>)
    requires
        listed(v, id, tris),
        admits(f, tris),
    ensures
        evaluated(v, f) matches Ok(Some(set)) ==> set.contains(id),
    decreases f,
{
    match f {
        Formula::Tri(t) => {
            assert(tris.contains(t));
        },
        Formula::And(subs) => {
            lemma_admits(subs, tris);
            assert forall|i: int| 0 <= i < subs.len() implies admits(#[trigger] subs[i], tris) by {}
            lemma_and_keeps(v, subs, id, tris);
        },
        Formula::Or(subs) => {
            lemma_admits(subs, tris);
            let i = choose|i: int| 0 <= i < subs.len() && admits(#[trigger] subs[i], tris);
            lemma_or_keeps(v, subs, id, tris, i);
        },
        _ => {},
    }
}

proof fn lemma_and_keeps(v: Files, subs: Seq<Formula>, id: u32, tris: Set<u32>)
    requires
        listed(v, id, tris),
        forall|i: int| 0 <= i < subs.len() ==> admits(#[trigger] subs[i], tris),
    ensures
        evaluated_and(v, subs) matches Ok(Some(set)) ==> set.contains(id),
    decreases subs,
{
    if subs.len() > 0 {
        assert forall|i: int| 0 <= i < subs.drop_last().len() implies admits(
            #[trigger] subs.drop_last()[i],
            tris,
        ) by {
            assert(subs.drop_last()[i] == subs[i]);
        }
        lemma_and_keeps(v, subs.drop_last(), id, tris);
        assert(decreases_to!(subs => subs[subs.len() - 1]));
        assert(admits(subs[subs.len() - 1], tris));
        law_evaluation_keeps_admitted(v, subs.last(), id, tris);
    }
}

proof fn lemma_or_keeps(v: Files, subs: Seq<Formula>, id: u32, tris: Set<u32>, i: int)
    requires
        listed(v, id, tris),
        0 <= i < subs.len(),
        admits(subs[i], tris),
    ensures
        evaluated_or(v, subs) matches Ok(Some(set)) ==> set.contains(id),
    decreases subs,
{
    if i < subs.len() - 1 {
        assert(subs.drop_last()[i] == subs[i]);
        lemma_or_keeps(v, subs.drop_last(), id, tris, i);
    } else {
        assert(decreases_to!(subs => subs[subs.len() - 1]));
        law_evaluation_keeps_admitted(v, subs.last(), id, tris);
    }
}

/// Evaluation gives alive files only.
pub proof fn law_evaluation_gives_alive_files(v: Files, f: Formula)
    requires
        base_count(v) + overlay_count(v) <= u32::MAX,
    ensures
        evaluated(v, f) matches Ok(Some(set)) ==> forall|x: u32| #[trigger]
            set.contains(x) ==> alive_ids(v).contains(x),
    decreases f,
{
    match f {
        Formula::Tri(t) => {
            match view_list(v, t) {
                Ok(Some(ids)) => {
                    assert forall|x: u32| #[trigger]
                        ids.to_set().contains(x) implies alive_ids(v).contains(x) by {
                        lemma_listed_is_alive(v, t, x);
                    }
                },
                _ => {},
            }
        },
        Formula::And(subs) => {
            lemma_and_alive(v, subs);
        },
        Formula::Or(subs) => {
            lemma_or_alive(v, subs);
        },
        _ => {},
    }
}

proof fn lemma_and_alive(v: Files, subs: Seq<Formula>)
    requires
        base_count(v) + overlay_count(v) <= u32::MAX,
    ensures
        evaluated_and(v, subs) matches Ok(Some(set)) ==> forall|x: u32| #[trigger]
            set.contains(x) ==> alive_ids(v).contains(x),
    decreases subs,
{
    if subs.len() > 0 {
        lemma_and_alive(v, subs.drop_last());
        assert(decreases_to!(subs => subs[subs.len() - 1]));
        law_evaluation_gives_alive_files(v, subs.last());
    }
}

proof fn lemma_or_alive(v: Files, subs: Seq<Formula>)
    requires
        base_count(v) + overlay_count(v) <= u32::MAX,
    ensures
        evaluated_or(v, subs) matches Ok(Some(set)) ==> forall|x: u32| #[trigger]
            set.contains(x) ==> alive_ids(v).contains(x),
    decreases subs,
{
    if subs.len() > 0 {
        lemma_or_alive(v, subs.drop_last());
        assert(decreases_to!(subs => subs[subs.len() - 1]));
        law_evaluation_gives_alive_files(v, subs.last());
    }
}

pub proof fn lemma_concat_has(a: Seq<u32>, b: Seq<u32>, x: u32)
    ensures
        (a + b).contains(x) <==> a.contains(x) || b.contains(x),
{
    if a.contains(x) {
        let i = choose|i: int| 0 <= i < a.len() && a[i] == x;
        assert((a + b)[i] == x);
    }
    if b.contains(x) {
        let i = choose|i: int| 0 <= i < b.len() && b[i] == x;
        assert((a + b)[a.len() + i] == x);
    }
    if (a + b).contains(x) {
        let i = choose|i: int| 0 <= i < (a + b).len() && (a + b)[i] == x;
        if i < a.len() {
            assert(a[i] == x);
        } else {
            assert(b[i - a.len()] == x);
        }
    }
}

proof fn lemma_listed_is_alive(v: Files, t: u32, x: u32)
    requires
        base_count(v) + overlay_count(v) <= u32::MAX,
        view_list(v, t) matches Ok(Some(ids)) && ids.contains(x),
    ensures
        alive_ids(v).contains(x),
{
    let base = crate::index::image::list_of(v.base, crate::index::image::layout_of(v.base), t);
    lemma_list_tidy(v.base, t);
    let n = base_count(v);
    let all = all_ids(n);
    lemma_live(v, all);
    let more = shifted(all_ids(overlay_count(v)), n);
    lemma_concat_has(live(v, all), more, x);
    let ids = view_list(v, t)->Ok_0->Some_0;
    match base {
        Ok(crate::index::postings::Listing::Ids(bids)) => {
            lemma_live(v, bids);
            if live(v, bids).contains(x) {
                assert(bids.contains(x));
                let i = choose|i: int| 0 <= i < bids.len() && bids[i] == x;
                assert(bids[i] < n);
                assert(all[x as int] == x);
                assert(all.contains(x));
                assert(live(v, all).contains(x));
            } else {
                let o = v.overlay->Some_0;
                lemma_list_tidy(o, t);
                let l = crate::index::image::list_of(o, crate::index::image::layout_of(o), t);
                let oids = l->Ok_0->Ids_0;
                lemma_concat_has(live(v, bids), shifted(oids, n), x);
                let i = choose|i: int| 0 <= i < oids.len() && shifted(oids, n)[i] == x;
                assert(oids[i] < overlay_count(v));
                assert(more[oids[i] as int] == x);
            }
        },
        _ => {},
    }
}

proof fn lemma_target_found(
    v: Files,
    ids: Seq<u32>,
    skip: bool,
    opts: SearchOptions,
    n: int,
    k: int,
    aim: Aim,
)
    requires
        0 <= k < n <= ids.len(),
        targets_of(v, ids, skip, opts, n) is Ok,
        target_of(v, ids[k], skip, opts) == Ok::<Option<Aim>, Fault>(Some(aim)),
    ensures
        targets_of(v, ids, skip, opts, n)->Ok_0.contains(aim),
    decreases n,
{
    let all = targets_of(v, ids, skip, opts, n)->Ok_0;
    let before = targets_of(v, ids, skip, opts, n - 1)->Ok_0;
    if k == n - 1 {
        assert(all.last() == aim);
    } else {
        lemma_target_found(v, ids, skip, opts, n - 1, k, aim);
        let i = choose|i: int| 0 <= i < before.len() && before[i] == aim;
        assert(all[i] == aim);
    }
}

proof fn lemma_target_source(
    v: Files,
    ids: Seq<u32>,
    skip: bool,
    opts: SearchOptions,
    n: int,
    aim: Aim,
) -> (k: int)
    requires
        n <= ids.len(),
        targets_of(v, ids, skip, opts, n) is Ok,
        targets_of(v, ids, skip, opts, n)->Ok_0.contains(aim),
    ensures
        0 <= k < n,
        target_of(v, ids[k], skip, opts) == Ok::<Option<Aim>, Fault>(Some(aim)),
    decreases n,
{
    let all = targets_of(v, ids, skip, opts, n)->Ok_0;
    if n <= 0 {
        assert(false);
        0
    } else {
        let before = targets_of(v, ids, skip, opts, n - 1)->Ok_0;
        let i = choose|i: int| 0 <= i < all.len() && all[i] == aim;
        if i < before.len() {
            assert(before[i] == aim);
            lemma_target_source(v, ids, skip, opts, n - 1, aim)
        } else {
            n - 1
        }
    }
}

/// The query that goes with a tree.
pub open spec fn query_for(t: Tree, invert: bool) -> Formula {
    if invert {
        Formula::All
    } else {
        planned(t)
    }
}

/// Whether a search has anything to report of a text with the given matches.
pub open spec fn has_report(
    data: Seq<u8>,
    spans: Seq<(usize, usize)>,
    opts: SearchOptions,
) -> bool {
    !is_binary(data) && scanned(data, spans, mode_of(opts)).len() > 0
}

/// A file that a full scan would report is among the targets of a search
/// through a faithful index.
pub proof fn law_index_loses_no_file(
    v: Files,
    id: u32,
    t: Tree,
    data: Seq<u8>,
    spans: Seq<(usize, usize)>,
    opts: SearchOptions,
    ids: Seq<u32>,
)
    requires
        alive_ids(v).contains(id),
        faithful(v, id, data),
        considers(view_file(v, id)->Ok_0, opts),
        spans_accepted(t, data, spans),
        has_report(data, spans, opts),
        candidates(v, query_for(t, opts.invert), ids),
        all_targets(v, ids, opts) is Ok,
    ensures
        ({
            let e = view_file(v, id)->Ok_0;
            all_targets(v, ids, opts)->Ok_0.contains(Aim { id, path: e.path, size: e.size })
        }),
{
    let e = view_file(v, id)->Ok_0;
    let aim = Aim { id, path: e.path, size: e.size };
    let scan = alive_scan_always(v);
    let a = targets_of(v, ids, true, opts, ids.len() as int)->Ok_0;
    let b = targets_of(v, scan, false, opts, scan.len() as int)->Ok_0;
    if e.flags & FLAG_SCAN_ALWAYS != 0 {
        let k = choose|k: int| 0 <= k < scan.len() && scan[k] == id;
        lemma_target_found(v, scan, false, opts, scan.len() as int, k, aim);
        let i = choose|i: int| 0 <= i < b.len() && b[i] == aim;
        assert((a + b)[a.len() + i] == aim);
    } else {
        if !opts.invert {
            // Something is reported, so there is a match.
            if spans.len() == 0 {
                law_scan_needs_a_match(data, spans, mode_of(opts));
            }
            let s = spans[0];
            law_plan_admits_every_match(t, data, s.0 as int, s.1 as int);
            law_evaluation_keeps_admitted(v, planned(t), id, trigrams(data));
        }
        assert(ids.contains(id)) by {
            match evaluated(v, query_for(t, opts.invert)) {
                Ok(Some(set)) => {
                    assert(ids.to_set().contains(id));
                },
                _ => {},
            }
        }
        let k = choose|k: int| 0 <= k < ids.len() && ids[k] == id;
        lemma_target_found(v, ids, true, opts, ids.len() as int, k, aim);
        let i = choose|i: int| 0 <= i < a.len() && a[i] == aim;
        assert((a + b)[i] == aim);
    }
}

/// Every target of a search through the index is a file of it that the
/// search considers.
pub proof fn law_targets_are_considered(
    v: Files,
    opts: SearchOptions,
    ids: Seq<u32>,
    aim: Aim,
)
    requires
        all_targets(v, ids, opts) is Ok,
        all_targets(v, ids, opts)->Ok_0.contains(aim),
    ensures
        ids.contains(aim.id) || alive_scan_always(v).contains(aim.id),
        view_file(v, aim.id) matches Ok(e) && considers(e, opts) && e.path == aim.path && e.size
            == aim.size,
{
    let scan = alive_scan_always(v);
    let a = targets_of(v, ids, true, opts, ids.len() as int)->Ok_0;
    let b = targets_of(v, scan, false, opts, scan.len() as int)->Ok_0;
    let all = a + b;
    let i = choose|i: int| 0 <= i < all.len() && all[i] == aim;
    if i < a.len() {
        assert(a[i] == aim);
        let k = lemma_target_source(v, ids, true, opts, ids.len() as int, aim);
        assert(ids[k] == aim.id);
    } else {
        assert(b[i - a.len()] == aim);
        let k = lemma_target_source(v, scan, false, opts, scan.len() as int, aim);
        assert(scan[k] == aim.id);
    }
}

/// The current texts of a tree, and the matches in each.
pub struct Texts {
    pub data: spec_fn(Seq<char>) -> Seq<u8>,
    pub spans: spec_fn(Seq<char>) -> Seq<(usize, usize)>,
}

/// Whether an alive file of the view is the candidate.
pub open spec fn is_same_file(v: Files, id: u32, c: Candidate) -> bool {
    alive_ids(v).contains(id) && (view_file(v, id) matches Ok(e) && e.path == c.rel_path@ && (
    e.flags & FLAG_HIDDEN != 0) == c.hidden)
}

/// Whether every alive file of the view was found.
pub open spec fn alive_are_found(v: Files, found: Seq<Candidate>) -> bool {
    forall|id: u32| #[trigger]
        alive_ids(v).contains(id) ==> exists|j: int|
            0 <= j < found.len() && #[trigger] is_same_file(v, id, found[j])
}

/// Whether a candidate is an alive file of the view.
pub open spec fn has_file(v: Files, c: Candidate) -> bool {
    exists|id: u32| is_same_file(v, id, c)
}

/// Whether every file found is an alive file of the view.
pub open spec fn found_are_alive(v: Files, found: Seq<Candidate>) -> bool {
    forall|j: int| 0 <= j < found.len() ==> has_file(v, #[trigger] found[j])
}

/// Whether the view tells the truth about its alive files, and always scans
/// alive files only.
pub open spec fn all_faithful(v: Files, texts: Texts) -> bool {
    &&& forall|id: u32| #[trigger]
        alive_ids(v).contains(id) ==> faithful(v, id, (texts.data)(view_file(v, id)->Ok_0.path))
    &&& forall|id: u32| #[trigger]
        alive_scan_always(v).contains(id) ==> alive_ids(v).contains(id)
}

/// Whether the view is of exactly the files found by walking the tree, and
/// tells the truth about each.
pub open spec fn up_to_date(v: Files, found: Seq<Candidate>, texts: Texts) -> bool {
    alive_are_found(v, found) && found_are_alive(v, found) && all_faithful(v, texts)
}

/// Whether a file with the given path is among the targets and has something
/// to report.
pub open spec fn reports(
    targets: Seq<Aim>,
    texts: Texts,
    opts: SearchOptions,
    path: Seq<char>,
) -> bool {
    (exists|i: int| 0 <= i < targets.len() && (#[trigger] targets[i]).path == path) && has_report(
        (texts.data)(path),
        (texts.spans)(path),
        opts,
    )
}

/// Whether a line is reported of a file with the given path.
pub open spec fn reports_line(
    targets: Seq<Aim>,
    texts: Texts,
    opts: SearchOptions,
    path: Seq<char>,
    line: Row,
) -> bool {
    reports(targets, texts, opts, path) && scanned(
        (texts.data)(path),
        (texts.spans)(path),
        mode_of(opts),
    ).contains(line)
}

proof fn lemma_walk_target(found: Seq<Candidate>, opts: SearchOptions, n: int, path: Seq<char>)
    requires
        0 <= n <= found.len(),
    ensures
        (exists|i: int|
            0 <= i < walk_targets_of(found, opts, n).len() && (#[trigger] walk_targets_of(
                found,
                opts,
                n,
            )[i]).path == path) <==> exists|j: int|
            0 <= j < n && (#[trigger] found[j]).rel_path@ == path && walk_considers(found[j], opts),
    decreases n,
{
    if n > 0 {
        lemma_walk_target(found, opts, n - 1, path);
        let before = walk_targets_of(found, opts, n - 1);
        let all = walk_targets_of(found, opts, n);
        let c = found[n - 1];
        if exists|i: int| 0 <= i < all.len() && (#[trigger] all[i]).path == path {
            let i = choose|i: int| 0 <= i < all.len() && (#[trigger] all[i]).path == path;
            if i < before.len() {
                assert(before[i].path == path);
            } else {
                assert(found[n - 1].rel_path@ == path);
            }
        }
        if exists|j: int|
            0 <= j < n && (#[trigger] found[j]).rel_path@ == path && walk_considers(
                found[j],
                opts,
            ) {
            let j = choose|j: int|
                0 <= j < n && (#[trigger] found[j]).rel_path@ == path && walk_considers(
                    found[j],
                    opts,
                );
            if j == n - 1 {
                assert(all.last().path == path);
            } else {
                let i = choose|i: int| 0 <= i < before.len() && (#[trigger] before[i]).path == path;
                assert(all[i].path == path);
            }
        }
    }
}

/// Searching with an up-to-date index reports exactly the files, and of each
/// exactly the lines, that a full walk-scan reports: the index only ever
/// narrows work.
pub proof fn law_index_search_equals_full_scan(
    v: Files,
    found: Seq<Candidate>,
    texts: Texts,
    t: Tree,
    opts: SearchOptions,
    ids: Seq<u32>,
    path: Seq<char>,
    line: Row,
)
    requires
        base_count(v) + overlay_count(v) <= u32::MAX,
        up_to_date(v, found, texts),
        forall|p: Seq<char>| spans_accepted(t, #[trigger] (texts.data)(p), (texts.spans)(p)),
        candidates(v, query_for(t, opts.invert), ids),
        all_targets(v, ids, opts) is Ok,
    ensures
        reports(all_targets(v, ids, opts)->Ok_0, texts, opts, path) <==> reports(
            walk_targets_of(found, opts, found.len() as int),
            texts,
            opts,
            path,
        ),
        reports_line(all_targets(v, ids, opts)->Ok_0, texts, opts, path, line) <==> reports_line(
            walk_targets_of(found, opts, found.len() as int),
            texts,
            opts,
            path,
            line,
        ),
{
    let list = all_targets(v, ids, opts)->Ok_0;
    let walked = walk_targets_of(found, opts, found.len() as int);
    lemma_walk_target(found, opts, found.len() as int, path);
    if reports(list, texts, opts, path) {
        let i = choose|i: int| 0 <= i < list.len() && (#[trigger] list[i]).path == path;
        let aim = list[i];
        assert(list.contains(aim));
        law_targets_are_considered(v, opts, ids, aim);
        let id = aim.id;
        assert(alive_ids(v).contains(id)) by {
            if ids.contains(id) {
                law_evaluation_gives_alive_files(v, query_for(t, opts.invert));
                match evaluated(v, query_for(t, opts.invert)) {
                    Ok(Some(set)) => {
                        assert(ids.to_set().contains(id));
                        assert(set.contains(id));
                    },
                    _ => {},
                }
            }
        }
        let j = choose|j: int| 0 <= j < found.len() && #[trigger] is_same_file(v, id, found[j]);
        assert(found[j].rel_path@ == path && walk_considers(found[j], opts));
    }
    if reports(walked, texts, opts, path) {
        let j = choose|j: int|
            0 <= j < found.len() && (#[trigger] found[j]).rel_path@ == path && walk_considers(
                found[j],
                opts,
            );
        let id = choose|id: u32| is_same_file(v, id, found[j]);
        let e = view_file(v, id)->Ok_0;
        assert(faithful(v, id, (texts.data)(e.path)));
        assert(considers(e, opts));
        assert(spans_accepted(t, (texts.data)(path), (texts.spans)(path)));
        law_index_loses_no_file(
            v,
            id,
            t,
            (texts.data)(path),
            (texts.spans)(path),
            opts,
            ids,
        );
        let aim = Aim { id, path: e.path, size: e.size };
        let i = choose|i: int| 0 <= i < list.len() && list[i] == aim;
        assert(list[i].path == path);
    }
}

/// The trigrams that the lists of the view say a file may have: those whose
/// list has it, and those of dense lists.
pub open spec fn listed_trigrams(v: Files, id: u32) -> Set<u32> {
    Set::new(
        |t: u32|
            match view_list(v, t) {
                Ok(Some(ids)) => ids.contains(id),
                Ok(None) => true,
                Err(_) => false,
            },
    )
}

proof fn lemma_narrows(v: Files, f: Formula, id: u32)
    ensures
        evaluated(v, f) matches Ok(Some(set)) ==> set.contains(id) ==> admits(
            f,
            listed_trigrams(v, id),
        ),
        evaluated(v, f) == Ok::<Option<Set<u32>>, Fault>(None) ==> admits(
            f,
            listed_trigrams(v, id),
        ),
    decreases f, 0nat,
{
    let tris = listed_trigrams(v, id);
    match f {
        Formula::Tri(t) => {
            if let Ok(Some(ids)) = view_list(v, t) {
                assert(ids.to_set().contains(id) <==> ids.contains(id));
            }
        },
        Formula::And(subs) => {
            lemma_admits(subs, tris);
            lemma_and_narrows(v, subs, id);
        },
        Formula::Or(subs) => {
            lemma_admits(subs, tris);
            lemma_or_narrows(v, subs, id);
        },
        _ => {},
    }
}

proof fn lemma_and_narrows(v: Files, subs: Seq<Formula>, id: u32)
    ensures
        evaluated_and(v, subs) matches Ok(Some(set)) ==> set.contains(id) ==> forall|i: int|
            0 <= i < subs.len() ==> admits(#[trigger] subs[i], listed_trigrams(v, id)),
        evaluated_and(v, subs) == Ok::<Option<Set<u32>>, Fault>(None) ==> forall|i: int|
            0 <= i < subs.len() ==> admits(#[trigger] subs[i], listed_trigrams(v, id)),
    decreases subs, 1nat,
{
    let tris = listed_trigrams(v, id);
    if subs.len() > 0 {
        let less = subs.drop_last();
        lemma_and_narrows(v, less, id);
        assert(decreases_to!(subs => subs[subs.len() - 1]));
        lemma_narrows(v, subs.last(), id);
        if (forall|i: int| 0 <= i < less.len() ==> admits(#[trigger] less[i], tris)) && admits(
            subs.last(),
            tris,
        ) {
            assert forall|i: int| 0 <= i < subs.len() implies admits(#[trigger] subs[i], tris) by {
                if i < subs.len() - 1 {
                    assert(less[i] == subs[i]);
                }
            }
        }
    }
}

proof fn lemma_or_narrows(v: Files, subs: Seq<Formula>, id: u32)
    ensures
        evaluated_or(v, subs) matches Ok(Some(set)) ==> set.contains(id) ==> exists|i: int|
            0 <= i < subs.len() && admits(#[trigger] subs[i], listed_trigrams(v, id)),
        evaluated_or(v, subs) == Ok::<Option<Set<u32>>, Fault>(None) ==> exists|i: int|
            0 <= i < subs.len() && admits(#[trigger] subs[i], listed_trigrams(v, id)),
    decreases subs, 1nat,
{
    let tris = listed_trigrams(v, id);
    if subs.len() > 0 {
        let less = subs.drop_last();
        lemma_or_narrows(v, less, id);
        assert(decreases_to!(subs => subs[subs.len() - 1]));
        lemma_narrows(v, subs.last(), id);
        if exists|i: int| 0 <= i < less.len() && admits(#[trigger] less[i], tris) {
            let i = choose|i: int| 0 <= i < less.len() && admits(#[trigger] less[i], tris);
            assert(admits(subs[i], tris));
        }
        if admits(subs.last(), tris) {
            assert(admits(subs[subs.len() - 1], tris));
        }
    }
}

/// The index narrows as far as its lists say: a file is a candidate exactly
/// when the query admits the trigrams that the lists give it.
pub proof fn law_evaluation_is_exact(v: Files, f: Formula, id: u32)
    ensures
        evaluated(v, f) matches Ok(Some(set)) ==> (set.contains(id) <==> admits(
            f,
            listed_trigrams(v, id),
        )),
        evaluated(v, f) == Ok::<Option<Set<u32>>, Fault>(None) ==> admits(
            f,
            listed_trigrams(v, id),
        ),
{
    lemma_narrows(v, f, id);
    let tris = listed_trigrams(v, id);
    assert(listed(v, id, tris));
    if admits(f, tris) {
        law_evaluation_keeps_admitted(v, f, id, tris);
    }
}

} // verus!
