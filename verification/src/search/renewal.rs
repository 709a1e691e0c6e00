//! Searching a tree after its index was brought up to date.

use crate::index::builder::{is_plan, BuildPlan, Prior, WriteSet};
use crate::index::candidates::Candidate;
use crate::index::finish::{build_result, records_marked};
use crate::index::pairs::rising;
use crate::index::planned::{all_read, building, is_to_read, law_planned_build_is_well_built};
use crate::index::refresh::distinct_paths;
use crate::index::stamps::{
    counts_fit, law_build_knows_the_texts, law_stamps_make_reuse_true, stamps_stand_for_texts,
};
use crate::index::truth::sound;
use crate::search::agreement::{query_for, reports, reports_line, up_to_date, Texts};
use crate::search::eval::evaluated;
use crate::search::freshness::built_view;
use crate::search::lines::Row;
use crate::search::matcher::spans_accepted;
use crate::search::options::SearchOptions;
use crate::search::select::{all_targets, candidates, walk_targets_of};
use crate::search::success::law_search_after_build_equals_full_scan;
use crate::search::unwritten::{law_unwritten_view_is_up_to_date, view_in, writes_nothing};
use crate::search::view::{base_count, overlay_count};
use crate::syntax::Tree;
use vstd::prelude::*;

verus! {

/// Where an unchanged size and time stand for an unchanged text, a build that
/// reads what it planned to read makes every search through the index succeed,
/// with exactly the files and lines that a full walk-scan reports.
pub proof fn law_search_after_refresh_equals_full_scan(
    prior: Prior,
    found: Seq<Candidate>,
    max: u64,
    plan: BuildPlan,
    done: WriteSet,
    binaries: Seq<u32>,
    runs: Seq<Seq<u64>>,
    root: Seq<char>,
    build_id: u64,
    texts: Texts,
    t: Tree,
    opts: SearchOptions,
    ids: Seq<u32>,
    path: Seq<char>,
    line: Row,
)
    requires
        found.len() < u32::MAX,
        distinct_paths(found),
        prior.base matches Some(b) ==> sound(b),
        prior.over matches Some(o) ==> sound(o) && prior.base is Some,
        is_plan(plan, prior, found, max),
        plan.write is Some,
        records_marked(plan.write->Some_0, done, binaries, binaries.len() as int),
        forall|i: int|
            0 <= i < binaries.len() ==> is_to_read(plan.write->Some_0, #[trigger] binaries[i]),
        forall|i: int| 0 <= i < runs.len() ==> rising(#[trigger] runs[i]),
        build_result(root, done, prior, runs, build_id) is Ok,
        all_read(plan.write->Some_0, found, binaries, runs, texts.data),
        stamps_stand_for_texts(prior, found, texts.data),
        forall|p: Seq<char>| spans_accepted(t, #[trigger] (texts.data)(p), (texts.spans)(p)),
        ({
            let x = building(prior, found, max, plan.write->Some_0, done, runs, root, build_id);
            base_count(built_view(x)) + overlay_count(built_view(x)) <= u32::MAX && candidates(
                built_view(x),
                query_for(t, opts.invert),
                ids,
            )
        }),
    ensures
        ({
            let x = building(prior, found, max, plan.write->Some_0, done, runs, root, build_id);
            let v = built_view(x);
            let walked = walk_targets_of(found, opts, found.len() as int);
            &&& evaluated(v, query_for(t, opts.invert)) is Ok
            &&& all_targets(v, ids, opts) matches Ok(list) && (reports(list, texts, opts, path)
                <==> reports(walked, texts, opts, path)) && (reports_line(
                list,
                texts,
                opts,
                path,
                line,
            ) <==> reports_line(walked, texts, opts, path, line))
        }),
{
    let x = building(prior, found, max, plan.write->Some_0, done, runs, root, build_id);
    law_planned_build_is_well_built(
        prior,
        found,
        max,
        plan,
        done,
        binaries,
        runs,
        root,
        build_id,
    );
    law_build_knows_the_texts(
        prior,
        found,
        max,
        plan,
        done,
        binaries,
        runs,
        root,
        build_id,
        texts.data,
    );
    law_search_after_build_equals_full_scan(x, texts, t, opts, ids, path, line);
}

/// Where an unchanged size and time stand for an unchanged text, the index
/// files are up to date as they are when a build finds nothing to write.
pub proof fn law_unchanged_tree_is_up_to_date(
    p: Prior,
    found: Seq<Candidate>,
    max: u64,
    texts: Texts,
)
    requires
        writes_nothing(p, found, max),
        stamps_stand_for_texts(p, found, texts.data),
    ensures
        up_to_date(view_in(p, found, max), found, texts),
{
    assert(counts_fit(p)) by {
        reveal(writes_nothing);
    }
    law_stamps_make_reuse_true(p, found, max, texts.data);
    law_unwritten_view_is_up_to_date(p, found, max, texts);
}

} // verus!
