//! What a build guarantees about the index that it leaves behind.

use crate::index::builder::{
    classes, count_of, entry_of, is_write_set, keeps, lemma_lookup_in_range, lemma_picks, mode_of,
    new_flags, new_ids, picks, reused_id, still_holds, Fate, Mode, Prior, WriteSet,
};
use crate::index::candidates::Candidate;
use crate::index::exact::{holds, holds_dense, lists_dense, lists_hold, tidy, tidy_tail};
use crate::index::finish::{base_tail, marked, over_tail, tails};
use crate::index::image::{
    file_at, image, layout_of, Contents, Entry, FLAG_BINARY, FLAG_HIDDEN, FLAG_SCAN_ALWAYS,
    FLAG_UNINDEXED,
};
use crate::index::merge::{merged, Sources};
use crate::index::pairs::{pair_of, rising};
use crate::index::readback::{law_written_file_reads_back, law_written_ids_read_back, writable};
use crate::index::reuse::reused;
use crate::index::truth::{
    law_reuse_keeps_lists, law_written_merge_lists, lemma_reused, lemma_scan_always, lists_file,
    sound, tells_truth,
};
use crate::trigram::{is_binary, trigrams};
use vstd::prelude::*;

verus! {

/// A build that writes: where it starts from, what it found, what it chose to
/// write, the runs of pairs that it extracted, and what it wrote.
pub struct Building {
    pub prior: Prior,
    pub found: Seq<Candidate>,
    pub max: u64,
    pub set: WriteSet,
    pub runs: Seq<Seq<u64>>,
    pub out: Contents,
}

pub open spec fn classes_in(x: Building) -> Seq<(Fate, u32)> {
    classes(x.prior, x.found, x.max)
}

/// The candidates that are written.
pub open spec fn picked_in(x: Building) -> Seq<int> {
    picks(classes_in(x), x.set.full, x.found.len() as int)
}

/// What is merged.
pub open spec fn sources_in(x: Building) -> Sources {
    Sources {
        runs: x.runs,
        olds: tails(base_tail(x.prior, x.set), over_tail(x.prior, x.set)),
    }
}

/// No path occurs twice.
pub open spec fn distinct_paths(found: Seq<Candidate>) -> bool {
    forall|i: int, j: int|
        0 <= i < j < found.len() ==> (#[trigger] found[i]).rel_path@ != (
        #[trigger] found[j]).rel_path@
}

/// Whether an entry is that of candidate `i`, with the binary mark if it was
/// read and turned out binary.
pub open spec fn is_record(e: Entry, found: Seq<Candidate>, cls: Seq<(Fate, u32)>, i: int) -> bool {
    ||| e == entry_of(found[i], cls[i].1)
    ||| cls[i].0 is New && cls[i].1 & FLAG_SCAN_ALWAYS == 0 && e == entry_of(
        found[i],
        marked(cls[i].1),
    )
}

/// Whether a build went as planned.
#[verifier::opaque]
pub open spec fn well_built(x: Building) -> bool {
    let cls = classes_in(x);
    let picked = picked_in(x);
    &&& x.found.len() < u32::MAX
    &&& distinct_paths(x.found)
    &&& x.prior.base matches Some(b) ==> sound(b)
    &&& x.prior.over matches Some(o) ==> sound(o)
    &&& x.prior.over is Some ==> x.prior.base is Some
    &&& mode_of(x.prior, cls) == if x.set.full {
        Mode::Full
    } else {
        Mode::Overlay
    }
    &&& is_write_set(x.set, x.prior, x.found, cls, x.set.full)
    &&& forall|i: int| 0 <= i < x.runs.len() ==> rising(#[trigger] x.runs[i])
    &&& x.out.files.len() == picked.len()
    &&& forall|k: int|
        0 <= k < picked.len() ==> is_record(#[trigger] x.out.files[k], x.found, cls, picked[k])
    &&& x.out.lists == merged(sources_in(x)).items
    &&& x.out.tombstones == x.set.tombstones@
    &&& x.out.ids.parent_id == x.set.parent_id
    &&& writable(x.out)
}

/// Whether the runs have the pairs of a text.
pub open spec fn runs_have(runs: Seq<Seq<u64>>, id: u32, data: Seq<u8>) -> bool {
    forall|t: u32| #[trigger]
        trigrams(data).contains(t) ==> exists|i: int|
            0 <= i < runs.len() && (#[trigger] runs[i]).contains(pair_of(t, id))
}

/// Whether the index files that a build starts from tell the truth about the
/// files that it takes from them: an unchanged size and time stand for an
/// unchanged text.
pub open spec fn prior_tells_truth(
    p: Prior,
    found: Seq<Candidate>,
    max: u64,
    data: spec_fn(Seq<char>) -> Seq<u8>,
) -> bool {
    let cls = classes(p, found, max);
    forall|i: int|
        0 <= i < cls.len() ==> match ((#[trigger] cls[i]).0, p.base, p.over) {
            (Fate::Base(id), Some(b), _) => tells_truth(b, id as nat, data(found[i].rel_path@)),
            (Fate::Over(id), _, Some(o)) => tells_truth(o, id as nat, data(found[i].rel_path@)),
            _ => true,
        }
}

/// Whether the texts of a tree are what the build read, and what the index
/// files that it started from know.
#[verifier::opaque]
pub open spec fn texts_as_read(x: Building, data: spec_fn(Seq<char>) -> Seq<u8>) -> bool {
    let cls = classes_in(x);
    let picked = picked_in(x);
    &&& forall|k: int|
        0 <= k < picked.len() && cls[picked[k]].0 is New && cls[picked[k]].1 & FLAG_SCAN_ALWAYS == 0
            ==> {
            let text = data(x.found[picked[k]].rel_path@);
            &&& (#[trigger] x.out.files[k]).flags & FLAG_BINARY != 0 <==> is_binary(text)
            &&& !is_binary(text) ==> runs_have(x.runs, k as u32, text)
        }
    &&& prior_tells_truth(x.prior, x.found, x.max, data)
}

/// The entry behind a candidate's class.
pub proof fn lemma_class_id(p: Prior, found: Seq<Candidate>, max: u64, i: int)
    requires
        0 <= i < found.len(),
        count_of(p.base) <= u32::MAX,
        count_of(p.over) <= u32::MAX,
    ensures
        match classes(p, found, max)[i].0 {
            Fate::Base(id) => id < count_of(p.base) && p.base is Some && (file_at(
                p.base->Some_0,
                layout_of(p.base->Some_0),
                id as nat,
            ) matches Ok(e) && e.path == found[i].rel_path@ && e.flags == classes(p, found, max)[i].1
                && still_holds(e, found[i], max)),
            Fate::Over(id) => id < count_of(p.over) && p.over is Some && (file_at(
                p.over->Some_0,
                layout_of(p.over->Some_0),
                id as nat,
            ) matches Ok(e) && e.path == found[i].rel_path@ && e.flags == classes(p, found, max)[i].1
                && still_holds(e, found[i], max)),
            Fate::New => classes(p, found, max)[i].1 == new_flags(found[i], max),
        },
{
    let path = found[i].rel_path@;
    if let Some(b) = p.base {
        lemma_lookup_in_range(b, path, layout_of(b).file_count);
    }
    if let Some(o) = p.over {
        lemma_lookup_in_range(o, path, layout_of(o).file_count);
    }
}

/// The new id of a reused file is that of its record.
proof fn lemma_new_id(
    cls: Seq<(Fate, u32)>,
    picked: Seq<int>,
    base: bool,
    count: nat,
    n: int,
    k: int,
    id: u32,
)
    requires
        0 <= k < n,
        id < count,
        reused_id(cls[picked[k]], base) == Some(id),
        forall|m: int|
            0 <= m < n && m != k ==> reused_id(cls[#[trigger] picked[m]], base) != Some(id),
    ensures
        new_ids(cls, picked, base, count, n).len() == count,
        new_ids(cls, picked, base, count, n)[id as int] == k as u32,
    decreases n,
{
    lemma_new_ids_len(cls, picked, base, count, n - 1);
    if k < n - 1 {
        lemma_new_id(cls, picked, base, count, n - 1, k, id);
        assert(reused_id(cls[picked[n - 1]], base) != Some(id));
    }
}

pub proof fn lemma_new_ids_len(
    cls: Seq<(Fate, u32)>,
    picked: Seq<int>,
    base: bool,
    count: nat,
    n: int,
)
    ensures
        new_ids(cls, picked, base, count, n).len() == count,
    decreases n,
{
    if n > 0 {
        lemma_new_ids_len(cls, picked, base, count, n - 1);
    }
}

pub proof fn lemma_picks_distinct(cls: Seq<(Fate, u32)>, full: bool, n: int)
    requires
        0 <= n <= cls.len(),
    ensures
        forall|a: int, b: int|
            0 <= a < b < picks(cls, full, n).len() ==> picks(cls, full, n)[a] < picks(
                cls,
                full,
                n,
            )[b],
    decreases n,
{
    if n > 0 {
        lemma_picks_distinct(cls, full, n - 1);
        lemma_picks(cls, full, n - 1, n - 1);
    }
}

/// What is merged is sorted and whole.
pub proof fn lemma_sources_tidy(x: Building)
    requires
        well_built(x),
    ensures
        tidy(sources_in(x)),
{
    reveal(well_built);
    let s = sources_in(x);
    let cls = classes_in(x);
    let picked = picked_in(x);
    let n = picked.len() as int;
    if let Some(b) = x.prior.base {
        if x.set.full {
            lemma_new_ids_len(cls, picked, true, count_of(x.prior.base), n);
            lemma_reused(b, x.set.remap_base@, 0);
        }
    }
    if let Some(o) = x.prior.over {
        lemma_new_ids_len(cls, picked, false, count_of(x.prior.over), n);
        lemma_reused(o, x.set.remap_over@, 0);
    }
    assert forall|i: int| 0 <= i < s.olds.len() implies tidy_tail(#[trigger] s.olds[i]) by {
        let (a, b) = (base_tail(x.prior, x.set), over_tail(x.prior, x.set));
        assert(a matches Some(t) ==> tidy_tail(t));
        assert(b matches Some(t) ==> tidy_tail(t));
    }
}

pub proof fn lemma_flag_bits(f: u32)
    ensures
        marked(f) & FLAG_BINARY != 0,
        marked(f) & FLAG_SCAN_ALWAYS == f & FLAG_SCAN_ALWAYS,
        marked(f) & FLAG_HIDDEN == f & FLAG_HIDDEN,
        f & FLAG_UNINDEXED == 0 <==> f & FLAG_BINARY == 0 && f & FLAG_SCAN_ALWAYS == 0,
{
    assert((f | 2u32) & 2u32 != 0) by (bit_vector);
    assert((f | 2u32) & 1u32 == f & 1u32) by (bit_vector);
    assert((f | 2u32) & 4u32 == f & 4u32) by (bit_vector);
    assert(f & 3u32 == 0 <==> f & 2u32 == 0 && f & 1u32 == 0) by (bit_vector);
}

pub proof fn lemma_new_flags(c: Candidate, max: u64)
    ensures
        new_flags(c, max) & FLAG_BINARY == 0,
        (new_flags(c, max) & FLAG_SCAN_ALWAYS != 0) == (c.size > max),
        (new_flags(c, max) & FLAG_HIDDEN != 0) == c.hidden,
{
    assert((1u32 | 4u32) & 2u32 == 0 && (1u32 | 0u32) & 2u32 == 0 && (0u32 | 4u32) & 2u32 == 0 && (
    0u32 | 0u32) & 2u32 == 0) by (bit_vector);
    assert((1u32 | 4u32) & 1u32 != 0 && (1u32 | 0u32) & 1u32 != 0 && (0u32 | 4u32) & 1u32 == 0 && (
    0u32 | 0u32) & 1u32 == 0) by (bit_vector);
    assert((1u32 | 4u32) & 4u32 != 0 && (1u32 | 0u32) & 4u32 == 0 && (0u32 | 4u32) & 4u32 != 0 && (
    0u32 | 0u32) & 4u32 == 0) by (bit_vector);
}

/// Record `k` keeps the lists of old file `id`.
proof fn lemma_reuse(x: Building, k: int, base: bool, id: u32)
    requires
        well_built(x),
        0 <= k < picked_in(x).len(),
        reused_id(classes_in(x)[picked_in(x)[k]], base) == Some(id),
    ensures
        ({
            let old = if base {
                x.prior.base
            } else {
                x.prior.over
            };
            id < count_of(old) && new_ids(
                classes_in(x),
                picked_in(x),
                base,
                count_of(old),
                picked_in(x).len() as int,
            )[id as int] == k as u32
        }),
{
    reveal(well_built);
    let cls = classes_in(x);
    let picked = picked_in(x);
    let n = picked.len() as int;
    let old = if base {
        x.prior.base
    } else {
        x.prior.over
    };
    lemma_picks(cls, x.set.full, x.found.len() as int, x.found.len() as int);
    lemma_picks_distinct(cls, x.set.full, x.found.len() as int);
    lemma_class_id(x.prior, x.found, x.max, picked[k]);
    assert forall|m: int| 0 <= m < n && m != k implies reused_id(cls[#[trigger] picked[m]], base)
        != Some(id) by {
        lemma_class_id(x.prior, x.found, x.max, picked[m]);
        if m < k {
            assert(picked[m] < picked[k]);
        } else {
            assert(picked[k] < picked[m]);
        }
    }
    lemma_new_id(cls, picked, base, count_of(old), n, k, id);
}

/// Whether the sources have `id` for a trigram, or a dense list.
pub open spec fn has(s: Sources, t: u32, id: u32) -> bool {
    holds(s, t, id) || exists|df: u64| holds_dense(s, t, df)
}

pub proof fn lemma_base_has(x: Building, k: int, id: u32, t: u32)
    requires
        well_built(x),
        0 <= k < picked_in(x).len(),
        reused_id(classes_in(x)[picked_in(x)[k]], true) == Some(id),
        x.set.full,
        x.prior.base matches Some(b) && lists_file(b, t, id as nat),
    ensures
        has(sources_in(x), t, k as u32),
{
    reveal(well_built);
    let s = sources_in(x);
    let b = x.prior.base->Some_0;
    lemma_reuse(x, k, true, id);
    lemma_new_ids_len(
        classes_in(x),
        picked_in(x),
        true,
        count_of(x.prior.base),
        picked_in(x).len() as int,
    );
    lemma_picks(classes_in(x), x.set.full, x.found.len() as int, x.found.len() as int);
    law_reuse_keeps_lists(b, x.set.remap_base@, t, id);
    assert(s.olds[0] == reused(b, layout_of(b), x.set.remap_base@, 0));
    lemma_from_tail(s, 0, t, k as u32);
}

pub proof fn lemma_over_has(x: Building, k: int, id: u32, t: u32)
    requires
        well_built(x),
        0 <= k < picked_in(x).len(),
        reused_id(classes_in(x)[picked_in(x)[k]], false) == Some(id),
        x.prior.over matches Some(o) && lists_file(o, t, id as nat),
    ensures
        has(sources_in(x), t, k as u32),
{
    reveal(well_built);
    let s = sources_in(x);
    let o = x.prior.over->Some_0;
    lemma_reuse(x, k, false, id);
    lemma_new_ids_len(
        classes_in(x),
        picked_in(x),
        false,
        count_of(x.prior.over),
        picked_in(x).len() as int,
    );
    lemma_picks(classes_in(x), x.set.full, x.found.len() as int, x.found.len() as int);
    law_reuse_keeps_lists(o, x.set.remap_over@, t, id);
    assert(s.olds[s.olds.len() - 1] == reused(o, layout_of(o), x.set.remap_over@, 0));
    lemma_from_tail(s, s.olds.len() - 1, t, k as u32);
}

proof fn lemma_base_is_full(cls: Seq<(Fate, u32)>, full: bool, n: int, k: int)
    requires
        0 <= n <= cls.len(),
        0 <= k < picks(cls, full, n).len(),
        cls[picks(cls, full, n)[k]].0 is Base,
    ensures
        full,
    decreases n,
{
    if n > 0 && k < picks(cls, full, n - 1).len() {
        lemma_base_is_full(cls, full, n - 1, k);
    }
}

/// The sources of a build have an indexed file for each of its trigrams.
proof fn lemma_text_is_held(
    x: Building,
    data: spec_fn(Seq<char>) -> Seq<u8>,
    k: int,
    t: u32,
)
    requires
        well_built(x),
        texts_as_read(x, data),
        0 <= k < x.out.files.len(),
        x.out.files[k].flags & FLAG_BINARY == 0,
        x.out.files[k].flags & FLAG_SCAN_ALWAYS == 0,
        trigrams(data(x.out.files[k].path)).contains(t),
    ensures
        has(sources_in(x), t, k as u32),
{
    reveal(well_built);
    reveal(texts_as_read);
    let cls = classes_in(x);
    let picked = picked_in(x);
    let i = picked[k];
    let e = x.out.files[k];
    let text = data(e.path);
    let s = sources_in(x);
    lemma_picks(cls, x.set.full, x.found.len() as int, x.found.len() as int);
    assert(is_record(e, x.found, cls, i));
    lemma_class_id(x.prior, x.found, x.max, i);
    lemma_flag_bits(cls[i].1);
    match cls[i].0 {
        Fate::New => {
            assert(runs_have(x.runs, k as u32, text));
            let r = choose|r: int|
                0 <= r < x.runs.len() && (#[trigger] x.runs[r]).contains(pair_of(t, k as u32));
            assert(s.runs[r].contains(pair_of(t, k as u32)));
            assert(holds(s, t, k as u32));
        },
        Fate::Base(id) => {
            lemma_base_is_full(cls, x.set.full, x.found.len() as int, k);
            assert(lists_file(x.prior.base->Some_0, t, id as nat));
            lemma_base_has(x, k, id, t);
        },
        Fate::Over(id) => {
            assert(lists_file(x.prior.over->Some_0, t, id as nat));
            lemma_over_has(x, k, id, t);
        },
    }
}

/// A build leaves an index that tells the truth about every file in it, as
/// far as those that it started from did.
pub proof fn law_build_tells_truth(x: Building, data: spec_fn(Seq<char>) -> Seq<u8>, k: int)
    requires
        well_built(x),
        texts_as_read(x, data),
        0 <= k < x.out.files.len(),
    ensures
        tells_truth(image(x.out), k as nat, data(x.out.files[k].path)),
{
    reveal(well_built);
    reveal(texts_as_read);
    let cls = classes_in(x);
    let i = picked_in(x)[k];
    let e = x.out.files[k];
    let text = data(e.path);
    let s = sources_in(x);
    let files = x.out.files;
    lemma_picks(cls, x.set.full, x.found.len() as int, x.found.len() as int);
    law_written_file_reads_back(x.out, k);
    law_written_ids_read_back(x.out);
    lemma_scan_always(files, files.len() as int, k);
    if e.flags & FLAG_BINARY != 0 {
        lemma_binary_is_true(x, data, k);
    } else if e.flags & FLAG_SCAN_ALWAYS == 0 {
        lemma_sources_tidy(x);
        assert forall|t: u32| #[trigger] trigrams(text).contains(t) implies lists_file(
            image(x.out),
            t,
            k as nat,
        ) by {
            lemma_text_is_held(x, data, k, t);
            law_written_merge_lists(s, x.out, t, k as u32);
        }
    }
}

proof fn lemma_binary_is_true(x: Building, data: spec_fn(Seq<char>) -> Seq<u8>, k: int)
    requires
        well_built(x),
        texts_as_read(x, data),
        0 <= k < x.out.files.len(),
        x.out.files[k].flags & FLAG_BINARY != 0,
    ensures
        is_binary(data(x.out.files[k].path)),
{
    reveal(well_built);
    reveal(texts_as_read);
    let cls = classes_in(x);
    let i = picked_in(x)[k];
    let e = x.out.files[k];
    lemma_picks(cls, x.set.full, x.found.len() as int, x.found.len() as int);
    assert(is_record(e, x.found, cls, i));
    lemma_class_id(x.prior, x.found, x.max, i);
    lemma_flag_bits(cls[i].1);
    lemma_new_flags(x.found[i], x.max);
    match cls[i].0 {
        Fate::New => {},
        Fate::Base(id) => {
            assert(tells_truth(x.prior.base->Some_0, id as nat, data(x.found[i].rel_path@)));
        },
        Fate::Over(id) => {
            assert(tells_truth(x.prior.over->Some_0, id as nat, data(x.found[i].rel_path@)));
        },
    }
}

proof fn lemma_from_tail(s: Sources, i: int, t: u32, id: u32)
    requires
        0 <= i < s.olds.len(),
        lists_hold(s.olds[i].items, t, id) || exists|df: u64| lists_dense(s.olds[i].items, t, df),
    ensures
        has(s, t, id),
{
    if !lists_hold(s.olds[i].items, t, id) {
        let df = choose|df: u64| lists_dense(s.olds[i].items, t, df);
        assert(holds_dense(s, t, df));
    }
}

} // verus!
