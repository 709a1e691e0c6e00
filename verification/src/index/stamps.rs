//! A file's size and time stand for its text: what a build reads again and
//! what it takes from the index files that there are.

use crate::index::builder::{
    class_of, classes, count_of, entry_of, is_plan, keeps, lemma_picks, new_files, over_kept, picks,
    prior_of, superseded, BuildPlan, Fate, Mode, Prior, WriteSet,
};
use crate::index::candidates::Candidate;
use crate::index::finish::records_marked;
use crate::index::image::{file_at, layout_of, Entry, FLAG_HIDDEN, FLAG_SCAN_ALWAYS};
use crate::index::known::{latest, lookup};
use crate::index::planned::{
    all_read, building, law_planned_build_reads_texts, lemma_is_to_read, lemma_to_read,
};
use crate::index::refresh::{lemma_class_id, lemma_new_flags, prior_tells_truth, texts_as_read};
use crate::index::truth::{sound, tells_truth};
use vstd::prelude::*;

verus! {

/// Whether entry `id` of an index has the path, the size and the time of a
/// file.
pub open spec fn has_stamp(b: Seq<u8>, id: nat, c: Candidate) -> bool {
    id < layout_of(b).file_count && (file_at(b, layout_of(b), id) matches Ok(e) && e.path
        == c.rel_path@ && e.size == c.size && e.mtime == c.mtime)
}

/// Whether an index has an entry with the path, the size and the time of a
/// file.
pub open spec fn knows(index: Option<Seq<u8>>, c: Candidate) -> bool {
    index matches Some(b) && exists|id: nat| #[trigger] has_stamp(b, id, c)
}

/// The number of entries of the index files fits.
pub open spec fn counts_fit(p: Prior) -> bool {
    count_of(p.base) <= u32::MAX && count_of(p.over) <= u32::MAX
}

/// A file is taken from an index file only if the entry that it is taken from
/// has its path, its size and its time.
pub proof fn law_reuse_needs_the_same_stamp(p: Prior, c: Candidate, max: u64)
    requires
        counts_fit(p),
    ensures
        match class_of(p, c, max).0 {
            Fate::Base(id) => p.base matches Some(b) && has_stamp(b, id as nat, c),
            Fate::Over(id) => p.over matches Some(o) && has_stamp(o, id as nat, c),
            Fate::New => true,
        },
{
    let found = seq![c];
    lemma_class_id(p, found, max, 0);
    assert(classes(p, found, max)[0] == class_of(p, c, max));
}

/// Where a file that is written stands among what is written.
proof fn lemma_picked(cls: Seq<(Fate, u32)>, full: bool, n: int, i: int) -> (k: int)
    requires
        0 <= i < n <= cls.len(),
        full || !(cls[i].0 is Base),
    ensures
        0 <= k < picks(cls, full, n).len(),
        picks(cls, full, n)[k] == i,
    decreases n,
{
    if i == n - 1 {
        picks(cls, full, n).len() - 1
    } else {
        let k = lemma_picked(cls, full, n - 1, i);
        k
    }
}

proof fn lemma_some_new(cls: Seq<(Fate, u32)>, n: int, i: int)
    requires
        0 <= i < n,
        cls[i].0 is New,
    ensures
        new_files(cls, n) > 0,
    decreases n,
{
    if i < n - 1 {
        lemma_some_new(cls, n - 1, i);
    }
}

/// A file that no index file has with the same size and time is written anew,
/// and read unless it is too large.
pub proof fn law_changed_file_is_read(
    plan: BuildPlan,
    p: Prior,
    found: Seq<Candidate>,
    max: u64,
    i: int,
) -> (k: int)
    requires
        found.len() < u32::MAX,
        counts_fit(p),
        is_plan(plan, p, found, max),
        0 <= i < found.len(),
        !knows(p.base, found[i]),
        !knows(p.over, found[i]),
    ensures
        plan.write matches Some(w) && {
            &&& 0 <= k < w.records@.len()
            &&& w.records@[k].rel_path@ == found[i].rel_path@
            &&& w.records@[k].size == found[i].size
            &&& w.records@[k].mtime == found[i].mtime
            &&& found[i].size <= max ==> w.to_extract@.contains((k as u32, i as usize))
        },
{
    let cls = classes(p, found, max);
    let n = found.len() as int;
    law_reuse_needs_the_same_stamp(p, found[i], max);
    assert(cls[i] == class_of(p, found[i], max));
    assert(cls[i].0 is New);
    lemma_some_new(cls, n, i);
    lemma_class_id(p, found, max, i);
    lemma_new_flags(found[i], max);
    let w = plan.write->Some_0;
    let k = lemma_picked(cls, w.full, n, i);
    let picked = picks(cls, w.full, n);
    lemma_picks(cls, w.full, n, n);
    assert(w.records@[k]@ == entry_of(found[picked[k]], cls[picked[k]].1));
    if found[i].size <= max {
        let m = lemma_is_to_read(cls, picked, picked.len() as int, k);
        assert(w.to_extract@[m] == (k as u32, i as usize));
    }
    k
}

/// Whether no two entries of an index have the same path.
pub open spec fn one_entry_each(b: Seq<u8>) -> bool {
    let l = layout_of(b);
    forall|i: nat, j: nat|
        i < j < l.file_count ==> match (#[trigger] file_at(b, l, i), #[trigger] file_at(b, l, j)) {
            (Ok(x), Ok(y)) => x.path != y.path,
            _ => true,
        }
}

/// Whether an entry is on the same side of the size cap and of hiddenness as a
/// file.
pub open spec fn same_side(e: Entry, c: Candidate, max: u64) -> bool {
    (e.flags & FLAG_SCAN_ALWAYS != 0 <==> c.size > max) && (e.flags & FLAG_HIDDEN != 0
        <==> c.hidden)
}

proof fn lemma_latest_is(b: Seq<u8>, path: Seq<char>, id: nat, n: nat)
    requires
        one_entry_each(b),
        id < n <= layout_of(b).file_count,
        file_at(b, layout_of(b), id) matches Ok(e) && e.path == path,
    ensures
        latest(b, path, n) == Some((id, file_at(b, layout_of(b), id)->Ok_0)),
    decreases n,
{
    if id < n - 1 {
        let x = file_at(b, layout_of(b), (n - 1) as nat);
        lemma_latest_is(b, path, id, (n - 1) as nat);
    }
}

/// What is unchanged is not read again: a file whose entry in the base or in
/// the overlay has its size and time is taken from there.
pub proof fn law_unchanged_file_is_reused(
    p: Prior,
    c: Candidate,
    max: u64,
    from_base: bool,
    id: nat,
)
    requires
        counts_fit(p),
        ({
            let index = if from_base {
                p.base
            } else {
                p.over
            };
            index matches Some(b) && one_entry_each(b) && has_stamp(b, id, c) && (file_at(
                b,
                layout_of(b),
                id,
            ) matches Ok(e) && same_side(e, c, max))
        }),
    ensures
        !(class_of(p, c, max).0 is New),
        from_base ==> class_of(p, c, max).0 == Fate::Base(id as u32),
{
    let index = if from_base {
        p.base
    } else {
        p.over
    };
    let b = index->Some_0;
    lemma_latest_is(b, c.rel_path@, id, layout_of(b).file_count);
    assert(lookup(index, c.rel_path@) == Some((id, file_at(b, layout_of(b), id)->Ok_0)));
}

/// What is read is not known to the index files with its size and time, on the
/// same sides.
pub proof fn law_only_changed_files_are_read(
    plan: BuildPlan,
    p: Prior,
    found: Seq<Candidate>,
    max: u64,
    m: int,
    from_base: bool,
    id: nat,
)
    requires
        found.len() < u32::MAX,
        counts_fit(p),
        is_plan(plan, p, found, max),
        plan.write matches Some(w) && 0 <= m < w.to_extract@.len(),
        p.base matches Some(b) ==> one_entry_each(b),
        p.over matches Some(o) ==> one_entry_each(o),
    ensures
        ({
            let c = found[plan.write->Some_0.to_extract@[m].1 as int];
            let index = if from_base {
                p.base
            } else {
                p.over
            };
            index matches Some(b) ==> has_stamp(b, id, c) ==> (file_at(
                b,
                layout_of(b),
                id,
            ) matches Ok(e) ==> !same_side(e, c, max))
        }),
{
    let w = plan.write->Some_0;
    let cls = classes(p, found, max);
    let n = found.len() as int;
    let picked = picks(cls, w.full, n);
    lemma_picks(cls, w.full, n, n);
    lemma_to_read(cls, picked, picked.len() as int, m);
    let k = w.to_extract@[m].0 as int;
    let i = picked[k];
    let c = found[i];
    assert(cls[i] == class_of(p, c, max));
    let index = if from_base {
        p.base
    } else {
        p.over
    };
    if let Some(b) = index {
        if has_stamp(b, id, c) && same_side(file_at(b, layout_of(b), id)->Ok_0, c, max) {
            law_unchanged_file_is_reused(p, c, max, from_base, id);
        }
    }
}

/// Every record that is written has the path, size and time of the file that
/// it is of, is always scanned exactly if that is too large, and is hidden
/// exactly if it is.
pub proof fn law_records_describe_files(
    plan: BuildPlan,
    p: Prior,
    found: Seq<Candidate>,
    max: u64,
    k: int,
)
    requires
        counts_fit(p),
        is_plan(plan, p, found, max),
        plan.write matches Some(w) && 0 <= k < w.records@.len(),
    ensures
        ({
            let w = plan.write->Some_0;
            let i = w.sources@[k] as int;
            let r = w.records@[k];
            &&& 0 <= i < found.len()
            &&& r.rel_path@ == found[i].rel_path@
            &&& r.size == found[i].size
            &&& r.mtime == found[i].mtime
            &&& r.flags & FLAG_SCAN_ALWAYS != 0 <==> found[i].size > max
            &&& r.flags & FLAG_HIDDEN != 0 <==> found[i].hidden
        }),
{
    let w = plan.write->Some_0;
    let cls = classes(p, found, max);
    let n = found.len() as int;
    let picked = picks(cls, w.full, n);
    lemma_picks(cls, w.full, n, n);
    let i = picked[k];
    lemma_class_id(p, found, max, i);
    lemma_new_flags(found[i], max);
    assert(w.sources@[k] == picked[k]);
    assert(w.records@[k]@ == entry_of(found[picked[k]], cls[picked[k]].1));
}

proof fn lemma_superseded(cls: Seq<(Fate, u32)>, n: nat, id: int)
    requires
        0 <= id < n <= u32::MAX,
        !keeps(cls, cls.len() as int, id),
    ensures
        superseded(cls, n).contains(id as u32),
    decreases n,
{
    if id < n - 1 {
        lemma_superseded(cls, (n - 1) as nat, id);
        let before = superseded(cls, (n - 1) as nat);
        let j = choose|j: int| 0 <= j < before.len() && before[j] == id as u32;
        assert(superseded(cls, n)[j] == id as u32);
    } else {
        assert(superseded(cls, n).last() == id as u32);
    }
}

/// A file of the base that is gone, or has another size or time, does not
/// survive: an overlay says so of it, and no fresh base takes its lists.
pub proof fn law_gone_file_is_superseded(
    plan: BuildPlan,
    p: Prior,
    found: Seq<Candidate>,
    max: u64,
    id: nat,
)
    requires
        counts_fit(p),
        is_plan(plan, p, found, max),
        plan.write matches Some(w) && !w.full,
        p.base matches Some(b) && id < layout_of(b).file_count && forall|i: int|
            0 <= i < found.len() ==> !has_stamp(b, id, #[trigger] found[i]),
    ensures
        plan.write->Some_0.tombstones@.contains(id as u32),
{
    let cls = classes(p, found, max);
    if keeps(cls, cls.len() as int, id as int) {
        let i = choose|i: int|
            0 <= i < cls.len() && (#[trigger] cls[i]).0 == Fate::Base(id as int as u32);
        law_reuse_needs_the_same_stamp(p, found[i], max);
        assert(has_stamp(p.base->Some_0, id, found[i]));
    }
    lemma_superseded(cls, count_of(p.base), id as int);
}

/// Without a base a fresh one is written; an overlay never holds, and never
/// supersedes, more files than 64 or an eighth of the base.
pub proof fn law_overlays_stay_small(
    plan: BuildPlan,
    p: Prior,
    found: Seq<Candidate>,
    max: u64,
)
    requires
        is_plan(plan, p, found, max),
    ensures
        p.base is None ==> plan.mode == Mode::Full,
        plan.mode == Mode::Overlay ==> ({
            let n = layout_of(p.base->Some_0).file_count;
            plan.write matches Some(w) && !w.full && (w.records@.len() <= 64 || 8 * w.records@.len()
                <= n) && (w.tombstones@.len() <= 64 || 8 * w.tombstones@.len() <= n)
        }),
        plan.mode == Mode::Full ==> (plan.write matches Some(w) && w.full && w.records@.len()
            == found.len()),
{
    let cls = classes(p, found, max);
    lemma_pick_count(cls, cls.len() as int);
}

proof fn lemma_pick_count(cls: Seq<(Fate, u32)>, n: int)
    requires
        0 <= n <= cls.len(),
    ensures
        picks(cls, false, n).len() == over_kept(cls, n) + new_files(cls, n),
        picks(cls, true, n).len() == n,
    decreases n,
{
    if n > 0 {
        lemma_pick_count(cls, n - 1);
    }
}

/// A small change never rewrites the base: one of at most 64 files, or of an
/// eighth of the base.
pub proof fn law_small_change_keeps_the_base(
    plan: BuildPlan,
    p: Prior,
    found: Seq<Candidate>,
    max: u64,
    changed: Set<int>,
    gone: Set<int>,
)
    requires
        is_plan(plan, p, found, max),
        p.base is Some,
        changed.finite() && gone.finite(),
        forall|i: int|
            0 <= i < found.len() && !(class_of(p, #[trigger] found[i], max).0 is Base)
                ==> changed.contains(i),
        forall|id: int|
            0 <= id < layout_of(p.base->Some_0).file_count && !(exists|i: int|
                0 <= i < found.len() && class_of(p, #[trigger] found[i], max).0 == Fate::Base(
                    id as u32,
                )) ==> #[trigger] gone.contains(id),
        changed.len() <= 64 || 8 * changed.len() <= layout_of(p.base->Some_0).file_count,
        gone.len() <= 64 || 8 * gone.len() <= layout_of(p.base->Some_0).file_count,
    ensures
        plan.mode != Mode::Full,
{
    let cls = classes(p, found, max);
    let n = count_of(p.base);
    assert forall|i: int|
        0 <= i < cls.len() && !((#[trigger] cls[i]).0 is Base) implies changed.contains(i) by {
        assert(!(class_of(p, found[i], max).0 is Base));
    }
    lemma_changed_count(cls, cls.len() as int, changed);
    assert forall|id: int| 0 <= id < n && !keeps(cls, cls.len() as int, id) implies gone.contains(
        id,
    ) by {
        if exists|i: int|
            0 <= i < found.len() && class_of(p, #[trigger] found[i], max).0 == Fate::Base(
                id as u32,
            ) {
            let i = choose|i: int|
                0 <= i < found.len() && class_of(p, #[trigger] found[i], max).0 == Fate::Base(
                    id as u32,
                );
            assert(cls[i].0 == Fate::Base(id as u32));
        }
    }
    lemma_gone_count(cls, n, gone);
}

proof fn lemma_changed_count(cls: Seq<(Fate, u32)>, n: int, changed: Set<int>)
    requires
        0 <= n <= cls.len(),
        changed.finite(),
        forall|i: int|
            0 <= i < n && !((#[trigger] cls[i]).0 is Base) ==> changed.contains(i),
    ensures
        over_kept(cls, n) + new_files(cls, n) <= changed.len(),
    decreases n,
{
    if n > 0 {
        if cls[n - 1].0 is Base {
            lemma_changed_count(cls, n - 1, changed);
        } else {
            assert(changed.contains(n - 1));
            lemma_changed_count(cls, n - 1, changed.remove(n - 1));
        }
    }
}

proof fn lemma_gone_count(cls: Seq<(Fate, u32)>, n: nat, gone: Set<int>)
    requires
        gone.finite(),
        forall|id: int|
            0 <= id < n && !keeps(cls, cls.len() as int, id) ==> #[trigger] gone.contains(id),
    ensures
        superseded(cls, n).len() <= gone.len(),
    decreases n,
{
    if n > 0 {
        let id = n - 1;
        if keeps(cls, cls.len() as int, id) {
            lemma_gone_count(cls, (n - 1) as nat, gone);
        } else {
            assert(gone.contains(id));
            let less = gone.remove(id);
            assert forall|k: int|
                0 <= k < n - 1 && !keeps(cls, cls.len() as int, k) implies #[trigger] less.contains(
                k,
            ) by {
                assert(gone.contains(k));
            }
            lemma_gone_count(cls, (n - 1) as nat, less);
        }
    }
}

/// Whether an unchanged size and time stand for an unchanged text: an entry
/// with the stamp of a file tells the truth about the file's text.
pub open spec fn stamps_stand_for_texts(
    p: Prior,
    found: Seq<Candidate>,
    data: spec_fn(Seq<char>) -> Seq<u8>,
) -> bool {
    &&& p.base matches Some(b) ==> forall|id: nat, i: int|
        0 <= i < found.len() && #[trigger] has_stamp(b, id, found[i]) ==> tells_truth(
            b,
            id,
            data(found[i].rel_path@),
        )
    &&& p.over matches Some(o) ==> forall|id: nat, i: int|
        0 <= i < found.len() && #[trigger] has_stamp(o, id, found[i]) ==> tells_truth(
            o,
            id,
            data(found[i].rel_path@),
        )
}

/// Where an unchanged size and time stand for an unchanged text, the index
/// files tell the truth about all that a build takes from them.
pub proof fn law_stamps_make_reuse_true(
    p: Prior,
    found: Seq<Candidate>,
    max: u64,
    data: spec_fn(Seq<char>) -> Seq<u8>,
)
    requires
        counts_fit(p),
        stamps_stand_for_texts(p, found, data),
    ensures
        prior_tells_truth(p, found, max, data),
{
    let cls = classes(p, found, max);
    assert forall|i: int| 0 <= i < cls.len() implies match ((#[trigger] cls[i]).0, p.base, p.over) {
        (Fate::Base(id), Some(b), _) => tells_truth(b, id as nat, data(found[i].rel_path@)),
        (Fate::Over(id), _, Some(o)) => tells_truth(o, id as nat, data(found[i].rel_path@)),
        _ => true,
    } by {
        law_reuse_needs_the_same_stamp(p, found[i], max);
        assert(cls[i] == class_of(p, found[i], max));
    }
}

/// A build whose files to read were read knows the texts of the tree, where an
/// unchanged size and time stand for an unchanged text.
pub proof fn law_build_knows_the_texts(
    prior: Prior,
    found: Seq<Candidate>,
    max: u64,
    plan: BuildPlan,
    done: WriteSet,
    binaries: Seq<u32>,
    runs: Seq<Seq<u64>>,
    root: Seq<char>,
    build_id: u64,
    data: spec_fn(Seq<char>) -> Seq<u8>,
)
    requires
        found.len() < u32::MAX,
        prior.base matches Some(b) ==> sound(b),
        prior.over matches Some(o) ==> sound(o),
        is_plan(plan, prior, found, max),
        plan.write is Some,
        records_marked(plan.write->Some_0, done, binaries, binaries.len() as int),
        all_read(plan.write->Some_0, found, binaries, runs, data),
        stamps_stand_for_texts(prior, found, data),
    ensures
        texts_as_read(
            building(prior, found, max, plan.write->Some_0, done, runs, root, build_id),
            data,
        ),
{
    law_stamps_make_reuse_true(prior, found, max, data);
    law_planned_build_reads_texts(
        prior,
        found,
        max,
        plan,
        done,
        binaries,
        runs,
        root,
        build_id,
        data,
    );
}

/// An overlay counts exactly if it was made for the base that there is.
pub proof fn law_overlay_belongs_to_its_base(base: Option<Seq<u8>>, over: Option<Seq<u8>>)
    ensures
        prior_of(base, over).base == base,
        prior_of(base, over).over matches Some(o) ==> over == Some(o) && base is Some
            && layout_of(o).parent_id == layout_of(base->Some_0).build_id,
        base is Some && over is Some && layout_of(over->Some_0).parent_id == layout_of(
            base->Some_0,
        ).build_id ==> prior_of(base, over).over == over,
{
}

} // verus!
