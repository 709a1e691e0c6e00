//! A search through the index that a build left succeeds, and finds what a
//! full scan finds.

use crate::index::candidates::Candidate;
use crate::index::image::{keys_of, layout_of, list_of};
use crate::index::readback::lemma_probe;
use crate::index::refresh::{texts_as_read, well_built, Building};
use crate::index::truth::sound;
use crate::plan::Formula;
use crate::search::agreement::{
    is_same_file, law_evaluation_gives_alive_files, law_index_search_equals_full_scan, query_for,
    reports, reports_line, up_to_date, Texts,
};
use crate::search::eval::{evaluated, evaluated_and, evaluated_or};
use crate::search::freshness::{built_view, law_built_view_is_up_to_date, lemma_built_counts};
use crate::search::lines::Row;
use crate::search::matcher::spans_accepted;
use crate::search::options::SearchOptions;
use crate::search::select::{all_targets, candidates, target_of, targets_of, walk_targets_of};
use crate::search::view::{
    alive_ids, alive_scan_always, base_count, overlay_count, view_file, Files,
};
use crate::syntax::Tree;
use vstd::prelude::*;

verus! {

/// Whether the index files of a view are sound.
pub open spec fn sound_view(v: Files) -> bool {
    sound(v.base) && (v.overlay matches Some(o) ==> sound(o))
}

proof fn lemma_list_readable(b: Seq<u8>, t: u32)
    requires
        sound(b),
    ensures
        list_of(b, layout_of(b), t) is Ok,
{
    let l = layout_of(b);
    lemma_probe(keys_of(b, l), t, 0, l.tri_count as int);
}

/// Every query on a sound view is answered.
pub proof fn law_sound_view_answers(v: Files, f: Formula)
    requires
        sound_view(v),
    ensures
        evaluated(v, f) is Ok,
    decreases f, 0nat,
{
    match f {
        Formula::Tri(t) => {
            lemma_list_readable(v.base, t);
            if let Some(o) = v.overlay {
                lemma_list_readable(o, t);
            }
        },
        Formula::And(subs) => {
            lemma_and_answers(v, subs);
        },
        Formula::Or(subs) => {
            lemma_or_answers(v, subs);
        },
        _ => {},
    }
}

proof fn lemma_and_answers(v: Files, subs: Seq<Formula>)
    requires
        sound_view(v),
    ensures
        evaluated_and(v, subs) is Ok,
    decreases subs, 0nat,
{
    if subs.len() > 0 {
        lemma_and_answers(v, subs.drop_last());
        law_sound_view_answers(v, subs.last());
    }
}

proof fn lemma_or_answers(v: Files, subs: Seq<Formula>)
    requires
        sound_view(v),
    ensures
        evaluated_or(v, subs) is Ok,
    decreases subs, 0nat,
{
    if subs.len() > 0 {
        lemma_or_answers(v, subs.drop_last());
        law_sound_view_answers(v, subs.last());
    }
}

proof fn lemma_targets_ok(v: Files, ids: Seq<u32>, skip: bool, opts: SearchOptions, n: int)
    requires
        0 <= n <= ids.len(),
        forall|k: int| 0 <= k < ids.len() ==> view_file(v, #[trigger] ids[k]) is Ok,
    ensures
        targets_of(v, ids, skip, opts, n) is Ok,
    decreases n,
{
    if n > 0 {
        lemma_targets_ok(v, ids, skip, opts, n - 1);
        assert(view_file(v, ids[n - 1]) is Ok);
        assert(target_of(v, ids[n - 1], skip, opts) is Ok);
    }
}

/// Whatever a query leaves as candidates on a view that is up to date, their
/// files can be looked up.
pub proof fn law_candidates_can_be_looked_up(
    v: Files,
    found: Seq<Candidate>,
    texts: Texts,
    f: Formula,
    ids: Seq<u32>,
    opts: SearchOptions,
)
    requires
        base_count(v) + overlay_count(v) <= u32::MAX,
        up_to_date(v, found, texts),
        candidates(v, f, ids),
    ensures
        all_targets(v, ids, opts) is Ok,
{
    assert forall|id: u32| #[trigger] alive_ids(v).contains(id) implies view_file(v, id) is Ok by {
        let j = choose|j: int| 0 <= j < found.len() && #[trigger] is_same_file(v, id, found[j]);
        assert(is_same_file(v, id, found[j]));
    }
    law_evaluation_gives_alive_files(v, f);
    assert forall|k: int| 0 <= k < ids.len() implies view_file(v, #[trigger] ids[k]) is Ok by {
        assert(ids.contains(ids[k]));
        match evaluated(v, f) {
            Ok(Some(set)) => {
                assert(ids.to_set().contains(ids[k]));
                assert(set.contains(ids[k]));
            },
            _ => {},
        }
        assert(alive_ids(v).contains(ids[k]));
    }
    let scan = alive_scan_always(v);
    assert forall|k: int| 0 <= k < scan.len() implies view_file(v, #[trigger] scan[k]) is Ok by {
        assert(scan.contains(scan[k]));
        assert(alive_ids(v).contains(scan[k]));
    }
    lemma_targets_ok(v, ids, true, opts, ids.len() as int);
    lemma_targets_ok(v, scan, false, opts, scan.len() as int);
}

/// After a build, whatever it reused, every search through the index succeeds
/// and reports exactly the files and lines that a full walk-scan reports.
pub proof fn law_search_after_build_equals_full_scan(
    x: Building,
    texts: Texts,
    t: Tree,
    opts: SearchOptions,
    ids: Seq<u32>,
    path: Seq<char>,
    line: Row,
)
    requires
        well_built(x),
        texts_as_read(x, texts.data),
        base_count(built_view(x)) + overlay_count(built_view(x)) <= u32::MAX,
        forall|p: Seq<char>| spans_accepted(t, #[trigger] (texts.data)(p), (texts.spans)(p)),
        candidates(built_view(x), query_for(t, opts.invert), ids),
    ensures
        evaluated(built_view(x), query_for(t, opts.invert)) is Ok,
        all_targets(built_view(x), ids, opts) is Ok,
        ({
            let list = all_targets(built_view(x), ids, opts)->Ok_0;
            let walked = walk_targets_of(x.found, opts, x.found.len() as int);
            &&& reports(list, texts, opts, path) <==> reports(walked, texts, opts, path)
            &&& reports_line(list, texts, opts, path, line) <==> reports_line(
                walked,
                texts,
                opts,
                path,
                line,
            )
        }),
{
    let v = built_view(x);
    law_built_view_is_up_to_date(x, texts);
    lemma_built_counts(x);
    assert(sound_view(v)) by {
        reveal(well_built);
    }
    law_sound_view_answers(v, query_for(t, opts.invert));
    law_candidates_can_be_looked_up(
        v,
        x.found,
        texts,
        query_for(t, opts.invert),
        ids,
        opts,
    );
    law_index_search_equals_full_scan(v, x.found, texts, t, opts, ids, path, line);
}

} // verus!
