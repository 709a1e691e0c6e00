//! A build that follows its plan goes as the laws on builds ask.

use crate::index::builder::{
    classes, entry_of, is_plan, lemma_picks, picks, to_read, BuildPlan, Fate, Prior, WriteSet,
};
use crate::index::candidates::Candidate;
use crate::index::finish::{
    base_tail, build_result, is_among, over_tail, records_marked, tails,
};
use crate::index::image::{image, Contents, Fault, IndexIds, FLAG_BINARY, FLAG_SCAN_ALWAYS};
use crate::index::merge::{merged, Sources};
use crate::index::pairs::rising;
use crate::index::refresh::{
    classes_in, distinct_paths, is_record, lemma_class_id, lemma_flag_bits, lemma_new_flags,
    picked_in, prior_tells_truth, runs_have, texts_as_read, well_built, Building,
};
use crate::index::truth::sound;
use crate::index::writer::entries;
use crate::trigram::is_binary;
use vstd::prelude::*;

verus! {

/// The build that starts from `prior`, finds `found`, plans to write `set`,
/// and writes it with the binary records marked, as `done`.
pub open spec fn building(
    prior: Prior,
    found: Seq<Candidate>,
    max: u64,
    set: WriteSet,
    done: WriteSet,
    runs: Seq<Seq<u64>>,
    root: Seq<char>,
    build_id: u64,
) -> Building {
    let sources = Sources { runs, olds: tails(base_tail(prior, set), over_tail(prior, set)) };
    Building {
        prior,
        found,
        max,
        set,
        runs,
        out: Contents {
            root,
            files: entries(done.records@),
            lists: merged(sources).items,
            tombstones: set.tombstones@,
            ids: IndexIds { build_id, parent_id: set.parent_id },
        },
    }
}

/// Whether a record is one of those to read.
pub open spec fn is_to_read(set: WriteSet, id: u32) -> bool {
    exists|m: int| 0 <= m < set.to_extract@.len() && (#[trigger] set.to_extract@[m]).0 == id
}

/// Records to read are new, and not too large.
pub proof fn lemma_to_read(cls: Seq<(Fate, u32)>, picked: Seq<int>, n: int, m: int)
    requires
        0 <= n <= u32::MAX,
        0 <= m < to_read(cls, picked, n).len(),
    ensures
        ({
            let k = to_read(cls, picked, n)[m].0 as int;
            0 <= k < n && cls[picked[k]].0 is New && cls[picked[k]].1 & FLAG_SCAN_ALWAYS == 0
                && to_read(cls, picked, n)[m].1 == picked[k] as usize
        }),
    decreases n,
{
    if n > 0 {
        let before = to_read(cls, picked, n - 1);
        if m < before.len() {
            lemma_to_read(cls, picked, n - 1, m);
        }
    }
}

/// A build that does what was planned, marks as binary only what it was to
/// read, and writes without a fault, is a build that the laws on builds are
/// about; the bytes written are those of its contents.
pub proof fn law_planned_build_is_well_built(
    prior: Prior,
    found: Seq<Candidate>,
    max: u64,
    plan: BuildPlan,
    done: WriteSet,
    binaries: Seq<u32>,
    runs: Seq<Seq<u64>>,
    root: Seq<char>,
    build_id: u64,
)
    requires
        found.len() < u32::MAX,
        distinct_paths(found),
        prior.base matches Some(b) ==> sound(b),
        prior.over matches Some(o) ==> sound(o) && prior.base is Some,
        is_plan(plan, prior, found, max),
        plan.write is Some,
        records_marked(plan.write->Some_0, done, binaries, binaries.len() as int),
        forall|i: int|
            0 <= i < binaries.len() ==> is_to_read(plan.write->Some_0, #[trigger] binaries[i]),
        forall|i: int| 0 <= i < runs.len() ==> rising(#[trigger] runs[i]),
        build_result(root, done, prior, runs, build_id) is Ok,
    ensures
        ({
            let x = building(
                prior,
                found,
                max,
                plan.write->Some_0,
                done,
                runs,
                root,
                build_id,
            );
            well_built(x) && build_result(root, done, prior, runs, build_id) == Ok::<
                Seq<u8>,
                Fault,
            >(image(x.out))
        }),
{
    let set = plan.write->Some_0;
    let x = building(prior, found, max, set, done, runs, root, build_id);
    let cls = classes(prior, found, max);
    let n = found.len() as int;
    let picked = picks(cls, set.full, n);
    lemma_picks(cls, set.full, n, n);
    assert(base_tail(prior, done) == base_tail(prior, set));
    assert(over_tail(prior, done) == over_tail(prior, set));
    assert forall|k: int| 0 <= k < picked.len() implies is_record(
        #[trigger] x.out.files[k],
        found,
        cls,
        picked[k],
    ) by {
        assert(done.records@[k]@ == x.out.files[k]);
        let before = set.records@[k];
        if is_among(binaries, binaries.len() as int, k) {
            let i = choose|i: int| 0 <= i < binaries.len() && #[trigger] binaries[i] == k;
            assert(is_to_read(set, binaries[i]));
            let m = choose|m: int|
                0 <= m < set.to_extract@.len() && (#[trigger] set.to_extract@[m]).0
                    == binaries[i];
            lemma_to_read(cls, picked, picked.len() as int, m);
        }
    }
    reveal(well_built);
}

/// A new record that is not too large is one to read.
pub proof fn lemma_is_to_read(cls: Seq<(Fate, u32)>, picked: Seq<int>, n: int, k: int) -> (m: int)
    requires
        0 <= k < n <= u32::MAX,
        cls[picked[k]].0 is New,
        cls[picked[k]].1 & FLAG_SCAN_ALWAYS == 0,
    ensures
        0 <= m < to_read(cls, picked, n).len(),
        to_read(cls, picked, n)[m] == (k as u32, picked[k] as usize),
    decreases n,
{
    if k == n - 1 {
        to_read(cls, picked, n).len() - 1
    } else {
        lemma_is_to_read(cls, picked, n - 1, k)
    }
}

/// Whether what there was to read was read: a record is found binary exactly
/// where its text is, and the runs have the pairs of every other text.
pub open spec fn all_read(
    set: WriteSet,
    found: Seq<Candidate>,
    binaries: Seq<u32>,
    runs: Seq<Seq<u64>>,
    data: spec_fn(Seq<char>) -> Seq<u8>,
) -> bool {
    forall|m: int|
        0 <= m < set.to_extract@.len() ==> {
            let (id, source) = #[trigger] set.to_extract@[m];
            let text = data(found[source as int].rel_path@);
            &&& is_among(binaries, binaries.len() as int, id as int) <==> is_binary(text)
            &&& !is_binary(text) ==> runs_have(runs, id, text)
        }
}

/// When everything that was to read was read, and the old index files told the
/// truth, the texts of the tree are as the build read them.
pub proof fn law_planned_build_reads_texts(
    prior: Prior,
    found: Seq<Candidate>,
    max: u64,
    plan: BuildPlan,
    done: WriteSet,
    binaries: Seq<u32>,
    runs: Seq<Seq<u64>>,
    root: Seq<char>,
    build_id: u64,
    data: spec_fn(Seq<char>) -> Seq<u8>,
)
    requires
        found.len() < u32::MAX,
        prior.base matches Some(b) ==> sound(b),
        prior.over matches Some(o) ==> sound(o),
        is_plan(plan, prior, found, max),
        plan.write is Some,
        records_marked(plan.write->Some_0, done, binaries, binaries.len() as int),
        all_read(plan.write->Some_0, found, binaries, runs, data),
        prior_tells_truth(prior, found, max, data),
    ensures
        texts_as_read(
            building(prior, found, max, plan.write->Some_0, done, runs, root, build_id),
            data,
        ),
{
    let set = plan.write->Some_0;
    let x = building(prior, found, max, set, done, runs, root, build_id);
    let cls = classes(prior, found, max);
    let n = found.len() as int;
    let picked = picks(cls, set.full, n);
    lemma_picks(cls, set.full, n, n);
    assert(classes_in(x) == cls && picked_in(x) == picked);
    assert forall|k: int| 0 <= k < picked_in(x).len() implies #[trigger] as_read_at(x, data, k) by {
        if cls[picked[k]].0 is New && cls[picked[k]].1 & FLAG_SCAN_ALWAYS == 0 {
            let m = lemma_is_to_read(cls, picked, picked.len() as int, k);
            assert(set.to_extract@[m] == (k as u32, picked[k] as usize));
            assert(done.records@[k]@ == x.out.files[k]);
            lemma_class_id(prior, found, max, picked[k]);
            lemma_new_flags(found[picked[k]], max);
            lemma_flag_bits(cls[picked[k]].1);
            assert(set.records@[k]@ == entry_of(found[picked[k]], cls[picked[k]].1));
        }
    }
    lemma_as_read(x, data);
}

/// Whether the text of the file behind record `k`, if it was to read, is as the
/// build read it.
spec fn as_read_at(x: Building, data: spec_fn(Seq<char>) -> Seq<u8>, k: int) -> bool {
    let (fate, flags) = classes_in(x)[picked_in(x)[k]];
    let text = data(x.found[picked_in(x)[k]].rel_path@);
    fate is New && flags & FLAG_SCAN_ALWAYS == 0 ==> {
        &&& x.out.files[k].flags & FLAG_BINARY != 0 <==> is_binary(text)
        &&& !is_binary(text) ==> runs_have(x.runs, k as u32, text)
    }
}

proof fn lemma_as_read(x: Building, data: spec_fn(Seq<char>) -> Seq<u8>)
    requires
        forall|k: int| 0 <= k < picked_in(x).len() ==> #[trigger] as_read_at(x, data, k),
        prior_tells_truth(x.prior, x.found, x.max, data),
    ensures
        texts_as_read(x, data),
{
    reveal(texts_as_read);
    assert forall|k: int|
        0 <= k < picked_in(x).len() && classes_in(x)[picked_in(x)[k]].0 is New && classes_in(
            x,
        )[picked_in(x)[k]].1 & FLAG_SCAN_ALWAYS == 0 implies {
        let text = data(x.found[picked_in(x)[k]].rel_path@);
        &&& (#[trigger] x.out.files[k]).flags & FLAG_BINARY != 0 <==> is_binary(text)
        &&& !is_binary(text) ==> runs_have(x.runs, k as u32, text)
    } by {
        assert(as_read_at(x, data, k));
    }
}

} // verus!
