//! Folding an overlay into a fresh base gives the index of a build from
//! scratch.

use crate::ids::lemma_ascending_same;
use crate::index::builder::{
    count_of, entry_of, lemma_picks, new_flags, new_ids, picks, reused_id, Fate,
};
use crate::index::candidates::Candidate;
use crate::index::exact::{
    has_key, holds, holds_dense, law_merge_depends_on_contents, law_merge_is_exact,
    lemma_rising_same, list_is_right, lists_dense, lists_hold, tidy,
};
use crate::index::finish::{base_tail, marked, over_tail};
use crate::index::image::{
    image, keys_of, layout_of, list_at, list_of, list_parts, lists_rejected, probe, sections,
    tri_row, tri_rows, Contents, Fault, IndexIds, FLAG_BINARY, FLAG_SCAN_ALWAYS, FLAG_UNINDEXED,
};
use crate::index::merge::{merged, Sources};
use crate::index::pairs::{id_of, key_of, law_pair_holds_both, pair_of};
use crate::index::postings::{list_bytes, list_count, list_encoding, Encoding, Listing};
use crate::index::readback::{keys_ascending, lemma_probe};
use crate::index::refresh::{
    classes_in, has, is_record, lemma_base_has, lemma_class_id, lemma_flag_bits,
    lemma_new_flags, lemma_new_ids_len, lemma_over_has, lemma_sources_tidy, picked_in,
    sources_in, well_built, Building,
};
use crate::index::reuse::{moved, reused, NO_ID};
use crate::index::truth::{entry_dense, entry_moves, lemma_reused, lists_file, sound};
use crate::trigram::{is_binary, trigrams};
use vstd::prelude::*;

verus! {

/// Whether an index lists a file for exactly the trigrams of its text, as far
/// as it keeps ids: of a dense list only the count is known.
pub open spec fn lists_exactly(b: Seq<u8>, id: u32, data: Seq<u8>) -> bool {
    forall|t: u32|
        match #[trigger] list_of(b, layout_of(b), t) {
            Ok(Listing::Ids(ids)) => ids.contains(id) <==> trigrams(data).contains(t),
            Ok(Listing::Dense(_)) => true,
            Err(_) => false,
        }
}

/// Whether an index has no dense list.
pub open spec fn none_dense(b: Seq<u8>) -> bool {
    forall|j: int|
        0 <= j < layout_of(b).tri_count ==> !(#[trigger] list_at(b, layout_of(b), j) matches Ok(
            Listing::Dense(_),
        ))
}

/// Whether a build reuses no dense list. One from scratch does not.
pub open spec fn reuses_no_dense(x: Building) -> bool {
    &&& x.prior.base matches Some(b) ==> none_dense(b)
    &&& x.prior.over matches Some(o) ==> none_dense(o)
}

/// Whether contents are written with a dense list of `t`, with count `df`.
pub open spec fn writes_dense(c: Contents, t: u32, df: u64) -> bool {
    exists|j: int|
        0 <= j < c.lists.len() && (#[trigger] c.lists[j]).0 == t && list_encoding(
            c.lists[j].1,
            c.files.len(),
        ) == Encoding::Dense && list_count(c.lists[j].1) == df
}

/// Whether each dense list of an index is written as a dense list with the
/// same count in the given contents.
pub open spec fn dense_as_in(b: Seq<u8>, c: Contents) -> bool {
    let l = layout_of(b);
    forall|j: int|
        0 <= j < l.tri_count ==> (#[trigger] list_at(b, l, j) matches Ok(Listing::Dense(df))
            ==> writes_dense(c, keys_of(b, l)[j], df))
}

/// Whether each dense list that a build reuses is dense, with the same count,
/// in the given contents.
pub open spec fn reuses_dense_as_in(x: Building, c: Contents) -> bool {
    &&& x.prior.base matches Some(b) ==> dense_as_in(b, c)
    &&& x.prior.over matches Some(o) ==> dense_as_in(o, c)
}

/// Whether a pair is of a record that was read, and of its text.
pub open spec fn pair_is_due(x: Building, data: spec_fn(Seq<char>) -> Seq<u8>, p: u64) -> bool {
    let k = id_of(p) as int;
    &&& k < x.out.files.len()
    &&& classes_in(x)[picked_in(x)[k]].0 is New
    &&& x.out.files[k].flags & FLAG_UNINDEXED == 0
    &&& trigrams(data(x.out.files[k].path)).contains(key_of(p))
}

/// Whether one of the runs has a pair.
pub open spec fn some_run_has(runs: Seq<Seq<u64>>, p: u64) -> bool {
    exists|r: int| 0 <= r < runs.len() && (#[trigger] runs[r]).contains(p)
}

/// The flags of a file with the given text when it is indexed for the first
/// time.
pub open spec fn first_flags(c: Candidate, max: u64, text: Seq<u8>) -> u32 {
    if c.size <= max && is_binary(text) {
        marked(new_flags(c, max))
    } else {
        new_flags(c, max)
    }
}

/// Whether everything that a full build writes is exact: what was read is
/// marked binary where it is, the runs hold the pairs of what was read and no
/// others, and the index files that it reuses have the flags and list exactly
/// the trigrams that they should.
#[verifier::opaque]
pub open spec fn merges_exactly(x: Building, data: spec_fn(Seq<char>) -> Seq<u8>) -> bool {
    let cls = classes_in(x);
    &&& x.set.full
    &&& forall|k: int|
        0 <= k < x.out.files.len() && cls[picked_in(x)[k]].0 is New && cls[picked_in(x)[k]].1
            & FLAG_SCAN_ALWAYS == 0 ==> ((#[trigger] x.out.files[k]).flags & FLAG_BINARY != 0
            <==> is_binary(data(x.found[picked_in(x)[k]].rel_path@)))
    &&& forall|i: int|
        0 <= i < cls.len() && !((#[trigger] cls[i]).0 is New) ==> cls[i].1 == first_flags(
            x.found[i],
            x.max,
            data(x.found[i].rel_path@),
        )
    &&& forall|p: u64| #[trigger] some_run_has(x.runs, p) <==> pair_is_due(x, data, p)
    &&& forall|i: int|
        0 <= i < cls.len() && cls[i].1 & FLAG_UNINDEXED == 0 ==> match (
            (#[trigger] cls[i]).0,
            x.prior.base,
            x.prior.over,
        ) {
            (Fate::Base(id), Some(b), _) => lists_exactly(b, id, data(x.found[i].rel_path@)),
            (Fate::Over(id), _, Some(o)) => lists_exactly(o, id, data(x.found[i].rel_path@)),
            _ => true,
        }
}

/// An old file with a new id is the one that the record reuses.
proof fn lemma_new_id_from(
    cls: Seq<(Fate, u32)>,
    picked: Seq<int>,
    base: bool,
    count: nat,
    n: int,
    id: int,
)
    requires
        0 <= n <= u32::MAX,
        0 <= id < count,
        new_ids(cls, picked, base, count, n)[id] != NO_ID,
    ensures
        ({
            let k = new_ids(cls, picked, base, count, n)[id];
            k < n && reused_id(cls[picked[k as int]], base) == Some(id as u32)
        }),
    decreases n,
{
    if n > 0 {
        lemma_new_ids_len(cls, picked, base, count, n - 1);
        match reused_id(cls[picked[n - 1]], base) {
            Some(x) if (x as nat) < count && x == id => {},
            _ => {
                lemma_new_id_from(cls, picked, base, count, n - 1, id);
            },
        }
    }
}

/// What a reused index contributes comes from the texts.
proof fn lemma_tail_is_due(
    x: Building,
    data: spec_fn(Seq<char>) -> Seq<u8>,
    base: bool,
    b: Seq<u8>,
    t: u32,
    k: u32,
)
    requires
        well_built(x),
        merges_exactly(x, data),
        if base {
            x.prior.base == Some(b)
        } else {
            x.prior.over == Some(b)
        },
        ({
            let remap = if base {
                x.set.remap_base@
            } else {
                x.set.remap_over@
            };
            lists_hold(reused(b, layout_of(b), remap, 0).items, t, k)
        }),
    ensures
        k < x.out.files.len(),
        x.out.files[k as int].flags & FLAG_UNINDEXED == 0,
        trigrams(data(x.out.files[k as int].path)).contains(t),
{
    reveal(well_built);
    reveal(merges_exactly);
    let cls = classes_in(x);
    let picked = picked_in(x);
    let n = picked.len() as int;
    let l = layout_of(b);
    let keys = keys_of(b, l);
    let remap = if base {
        x.set.remap_base@
    } else {
        x.set.remap_over@
    };
    lemma_picks(cls, x.set.full, x.found.len() as int, x.found.len() as int);
    lemma_new_ids_len(cls, picked, base, l.file_count, n);
    lemma_reused(b, remap, 0);
    let j = choose|j: int| 0 <= j < l.tri_count && #[trigger] entry_moves(b, l, remap, j, t, k);
    let ids = list_at(b, l, j)->Ok_0->Ids_0;
    assert(moved(ids, remap, ids.len() as int).contains(k));
    let m = choose|m: int| 0 <= m < ids.len() && remap[(#[trigger] ids[m]) as int] == k;
    let old = ids[m];
    assert(old < l.file_count);
    lemma_new_id_from(cls, picked, base, l.file_count, n, old as int);
    let i = picked[k as int];
    assert(is_record(x.out.files[k as int], x.found, cls, i));
    lemma_flag_bits(cls[i].1);
    assert(lists_exactly(b, old, data(x.found[i].rel_path@)));
    lemma_probe(keys, t, 0, l.tri_count as int);
    assert(probe(keys, t, 0, l.tri_count as int) == Some(j)) by {
        match probe(keys, t, 0, l.tri_count as int) {
            Some(q) => {
                if q < j {
                    assert(keys[q] < keys[j]);
                } else if j < q {
                    assert(keys[j] < keys[q]);
                }
            },
            None => {},
        }
    }
    assert(ids.contains(old));
    assert(list_of(b, l, t) == Ok::<Listing, Fault>(Listing::Ids(ids)));
}

proof fn lemma_tail_dense(b: Seq<u8>, remap: Seq<u32>, t: u32, df: u64, c: Contents)
    requires
        sound(b),
        remap.len() == layout_of(b).file_count,
        lists_dense(reused(b, layout_of(b), remap, 0).items, t, df),
    ensures
        !none_dense(b),
        dense_as_in(b, c) ==> writes_dense(c, t, df),
{
    let l = layout_of(b);
    lemma_reused(b, remap, 0);
    let j = choose|j: int| 0 <= j < l.tri_count && #[trigger] entry_dense(b, l, j, t, df);
    assert(list_at(b, l, j) == Ok::<Listing, Fault>(Listing::Dense(df)));
}

/// What holds of a dense list among the sources of a full build.
proof fn lemma_dense_source(
    x: Building,
    data: spec_fn(Seq<char>) -> Seq<u8>,
    t: u32,
    df: u64,
    c: Contents,
)
    requires
        well_built(x),
        merges_exactly(x, data),
        holds_dense(sources_in(x), t, df),
    ensures
        !reuses_no_dense(x),
        reuses_dense_as_in(x, c) ==> writes_dense(c, t, df),
{
    reveal(well_built);
    reveal(merges_exactly);
    let s = sources_in(x);
    let cls = classes_in(x);
    let picked = picked_in(x);
    let n = picked.len() as int;
    let i = choose|i: int|
        0 <= i < s.olds.len() && lists_dense((#[trigger] s.olds[i]).items, t, df);
    assert(i == 0 || i == 1);
    if x.prior.base is Some && i == 0 {
        lemma_new_ids_len(cls, picked, true, count_of(x.prior.base), n);
        lemma_tail_dense(x.prior.base->Some_0, x.set.remap_base@, t, df, c);
    } else {
        lemma_new_ids_len(cls, picked, false, count_of(x.prior.over), n);
        lemma_tail_dense(x.prior.over->Some_0, x.set.remap_over@, t, df, c);
    }
}

/// Whether record `k` is to be listed for `t`.
spec fn is_due(x: Building, data: spec_fn(Seq<char>) -> Seq<u8>, t: u32, k: u32) -> bool {
    k < x.out.files.len() && x.out.files[k as int].flags & FLAG_UNINDEXED == 0 && trigrams(
        data(x.out.files[k as int].path),
    ).contains(t)
}

/// A merge of exact sources has a file for exactly the trigrams of its text,
/// but for those whose list is dense.
proof fn lemma_holds_exactly(
    x: Building,
    data: spec_fn(Seq<char>) -> Seq<u8>,
    t: u32,
    k: u32,
)
    requires
        well_built(x),
        merges_exactly(x, data),
    ensures
        holds(sources_in(x), t, k) ==> is_due(x, data, t, k),
        is_due(x, data, t, k) ==> has(sources_in(x), t, k),
{
    if holds(sources_in(x), t, k) {
        lemma_held_is_due(x, data, t, k);
    }
    if is_due(x, data, t, k) {
        lemma_due_is_had(x, data, t, k);
    }
}

proof fn lemma_held_is_due(x: Building, data: spec_fn(Seq<char>) -> Seq<u8>, t: u32, k: u32)
    requires
        well_built(x),
        merges_exactly(x, data),
        holds(sources_in(x), t, k),
    ensures
        k < x.out.files.len(),
        x.out.files[k as int].flags & FLAG_UNINDEXED == 0,
        trigrams(data(x.out.files[k as int].path)).contains(t),
{
    let s = sources_in(x);
    law_pair_holds_both(t, k);
    if exists|r: int| 0 <= r < s.runs.len() && (#[trigger] s.runs[r]).contains(pair_of(t, k)) {
        reveal(merges_exactly);
        let r = choose|r: int| 0 <= r < s.runs.len() && (#[trigger] s.runs[r]).contains(pair_of(t, k));
        assert(x.runs[r].contains(pair_of(t, k)));
        assert(some_run_has(x.runs, pair_of(t, k)));
        assert(pair_is_due(x, data, pair_of(t, k)));
    } else {
        let i = choose|i: int|
            0 <= i < s.olds.len() && lists_hold((#[trigger] s.olds[i]).items, t, k);
        let (a, b) = (base_tail(x.prior, x.set), over_tail(x.prior, x.set));
        assert(x.set.full) by {
            reveal(merges_exactly);
        }
        if a is Some && i == 0 {
            lemma_tail_is_due(x, data, true, x.prior.base->Some_0, t, k);
        } else {
            lemma_tail_is_due(x, data, false, x.prior.over->Some_0, t, k);
        }
    }
}

proof fn lemma_due_is_had(x: Building, data: spec_fn(Seq<char>) -> Seq<u8>, t: u32, k: u32)
    requires
        well_built(x),
        merges_exactly(x, data),
        k < x.out.files.len(),
        x.out.files[k as int].flags & FLAG_UNINDEXED == 0,
        trigrams(data(x.out.files[k as int].path)).contains(t),
    ensures
        has(sources_in(x), t, k),
{
    reveal(well_built);
    reveal(merges_exactly);
    let s = sources_in(x);
    let cls = classes_in(x);
    let i = picked_in(x)[k as int];
    law_pair_holds_both(t, k);
    lemma_picks(cls, x.set.full, x.found.len() as int, x.found.len() as int);
    assert(is_record(x.out.files[k as int], x.found, cls, i));
    lemma_class_id(x.prior, x.found, x.max, i);
    lemma_flag_bits(cls[i].1);
    lemma_flag_bits(x.out.files[k as int].flags);
    match cls[i].0 {
        Fate::New => {
            assert(pair_is_due(x, data, pair_of(t, k)));
            assert(some_run_has(x.runs, pair_of(t, k)));
            let r = choose|r: int|
                0 <= r < x.runs.len() && (#[trigger] x.runs[r]).contains(pair_of(t, k));
            assert(s.runs[r].contains(pair_of(t, k)));
        },
        Fate::Base(id) => {
            let b = x.prior.base->Some_0;
            assert(lists_exactly(b, id, data(x.found[i].rel_path@)));
            assert(list_of(b, layout_of(b), t) is Ok);
            assert(lists_file(b, t, id as nat));
            lemma_base_has(x, k as int, id, t);
        },
        Fate::Over(id) => {
            let o = x.prior.over->Some_0;
            assert(lists_exactly(o, id, data(x.found[i].rel_path@)));
            assert(list_of(o, layout_of(o), t) is Ok);
            assert(lists_file(o, t, id as nat));
            lemma_over_has(x, k as int, id, t);
        },
    }
}

/// In a full build every candidate is written, in its place.
proof fn lemma_all_picked(cls: Seq<(Fate, u32)>, n: int)
    requires
        0 <= n,
    ensures
        picks(cls, true, n).len() == n,
        forall|k: int| 0 <= k < n ==> #[trigger] picks(cls, true, n)[k] == k,
    decreases n,
{
    if n > 0 {
        lemma_all_picked(cls, n - 1);
    }
}

/// The records of an exact full build are those of files indexed for the first
/// time.
proof fn lemma_exact_record(x: Building, data: spec_fn(Seq<char>) -> Seq<u8>, k: int)
    requires
        well_built(x),
        merges_exactly(x, data),
        0 <= k < x.found.len(),
    ensures
        x.out.files.len() == x.found.len(),
        x.out.files[k] == entry_of(
            x.found[k],
            first_flags(x.found[k], x.max, data(x.found[k].rel_path@)),
        ),
{
    reveal(well_built);
    reveal(merges_exactly);
    let cls = classes_in(x);
    let picked = picked_in(x);
    lemma_all_picked(cls, x.found.len() as int);
    assert(picked[k] == k);
    assert(is_record(x.out.files[k], x.found, cls, picked[k]));
    lemma_class_id(x.prior, x.found, x.max, k);
    lemma_new_flags(x.found[k], x.max);
    lemma_flag_bits(cls[k].1);
}

/// Whether two walks found the same files.
pub open spec fn same_found(a: Seq<Candidate>, b: Seq<Candidate>) -> bool {
    a.len() == b.len() && forall|i: int|
        0 <= i < a.len() ==> (#[trigger] a[i]).rel_path@ == (#[trigger] b[i]).rel_path@ && a[i].size
            == b[i].size && a[i].mtime == b[i].mtime && a[i].hidden == b[i].hidden
}

/// An index under another build id.
pub open spec fn under_id(c: Contents, build_id: u64) -> Contents {
    Contents { ids: IndexIds { build_id, ..c.ids }, ..c }
}

/// A list as it is written: of one that is stored dense only the count.
pub open spec fn as_written(item: (u32, Listing), file_count: nat) -> (u32, Listing) {
    if list_encoding(item.1, file_count) == Encoding::Dense {
        (item.0, Listing::Dense(list_count(item.1) as u64))
    } else {
        item
    }
}

/// Lists as they are written.
pub open spec fn all_as_written(lists: Seq<(u32, Listing)>, file_count: nat) -> Seq<
    (u32, Listing),
> {
    Seq::new(lists.len(), |i: int| as_written(lists[i], file_count))
}

/// The bytes of an index depend on the lists as they are written.
proof fn lemma_image_as_written(c: Contents)
    requires
        forall|i: int| 0 <= i < c.lists.len() ==> list_count((#[trigger] c.lists[i]).1) <= u64::MAX,
    ensures
        image(c) == image(Contents { lists: all_as_written(c.lists, c.files.len()), ..c }),
{
    let n = c.files.len();
    let d = Contents { lists: all_as_written(c.lists, n), ..c };
    assert(list_parts(c.lists, n) =~= list_parts(d.lists, n)) by {
        assert forall|i: int| 0 <= i < c.lists.len() implies #[trigger] list_bytes(
            c.lists[i].1,
            n,
        ) == list_bytes(d.lists[i].1, n) by {}
    }
    assert(tri_rows(c.lists, n) =~= tri_rows(d.lists, n)) by {
        assert forall|i: int| 0 <= i < c.lists.len() implies tri_row(c.lists, n, i) == tri_row(
            d.lists,
            n,
            i,
        ) by {
            assert(list_encoding(c.lists[i].1, n) == list_encoding(d.lists[i].1, n));
            assert(list_count(c.lists[i].1) == list_count(d.lists[i].1));
        }
    }
    assert(sections(c) =~= sections(d));
}

/// Lists of contents that can be written have counts that fit.
proof fn lemma_counts_fit(c: Contents, n: int, i: int)
    requires
        lists_rejected(c.lists, c.files.len(), n) is None,
        0 <= i < n,
    ensures
        list_count(c.lists[i].1) <= u64::MAX,
    decreases n,
{
    if i < n - 1 {
        lemma_counts_fit(c, n - 1, i);
    }
}

/// A list of the build that reuses dense lists is written like one of the
/// build that does not.
proof fn lemma_written_alike(
    x: Building,
    y: Building,
    data: spec_fn(Seq<char>) -> Seq<u8>,
    i: int,
) -> (j: int)
    requires
        well_built(x),
        well_built(y),
        merges_exactly(x, data),
        merges_exactly(y, data),
        reuses_no_dense(y),
        reuses_dense_as_in(x, y.out),
        x.out.files == y.out.files,
        0 <= i < x.out.lists.len(),
    ensures
        0 <= j < y.out.lists.len(),
        y.out.lists[j].0 == x.out.lists[i].0,
        as_written(y.out.lists[j], y.out.files.len()) == as_written(
            x.out.lists[i],
            x.out.files.len(),
        ),
{
    let (s1, s2) = (sources_in(x), sources_in(y));
    let (a, b) = (x.out.lists, y.out.lists);
    assert(a == merged(s1).items && b == merged(s2).items) by {
        reveal(well_built);
    }
    lemma_sources_tidy(x);
    lemma_sources_tidy(y);
    law_merge_is_exact(s1);
    law_merge_is_exact(s2);
    let t = a[i].0;
    assert(list_is_right(s1, a[i]));
    match a[i].1 {
        Listing::Dense(df) => {
            assert(holds_dense(s1, t, df));
            lemma_dense_source(x, data, t, df, y.out);
            assert(writes_dense(y.out, t, df));
            choose|j: int|
                0 <= j < b.len() && (#[trigger] b[j]).0 == t && list_encoding(
                    b[j].1,
                    y.out.files.len(),
                ) == Encoding::Dense && list_count(b[j].1) == df
        },
        Listing::Ids(p) => {
            assert forall|k: u32| #[trigger] holds(s1, t, k) <==> is_due(x, data, t, k) by {
                lemma_holds_exactly(x, data, t, k);
            }
            assert forall|k: u32| #[trigger] holds(s2, t, k) <==> is_due(y, data, t, k) by {
                lemma_holds_exactly(y, data, t, k);
                if is_due(y, data, t, k) && !holds(s2, t, k) {
                    let df = choose|df: u64| holds_dense(s2, t, df);
                    lemma_dense_source(y, data, t, df, y.out);
                }
            }
            assert(p.contains(p[0]));
            assert(holds(s1, t, p[0]));
            assert(is_due(y, data, t, p[0]));
            assert(holds(s2, t, p[0]));
            assert(has_key(s2, t));
            let j = choose|j: int| 0 <= j < b.len() && (#[trigger] b[j]).0 == t;
            assert(list_is_right(s2, b[j]));
            match b[j].1 {
                Listing::Dense(df) => {
                    assert(holds_dense(s2, t, df));
                    lemma_dense_source(y, data, t, df, y.out);
                },
                Listing::Ids(q) => {
                    assert forall|k: u32| p.contains(k) <==> q.contains(k) by {
                        assert(holds(s1, t, k) <==> is_due(x, data, t, k));
                        assert(holds(s2, t, k) <==> is_due(y, data, t, k));
                    }
                    lemma_ascending_same(p, q);
                },
            }
            j
        },
    }
}

/// What the build without dense lists writes a list for, the other does too.
proof fn lemma_written_back(
    x: Building,
    y: Building,
    data: spec_fn(Seq<char>) -> Seq<u8>,
    j: int,
) -> (i: int)
    requires
        well_built(x),
        well_built(y),
        merges_exactly(x, data),
        merges_exactly(y, data),
        reuses_no_dense(y),
        x.out.files == y.out.files,
        0 <= j < y.out.lists.len(),
    ensures
        0 <= i < x.out.lists.len(),
        x.out.lists[i].0 == y.out.lists[j].0,
{
    let (s1, s2) = (sources_in(x), sources_in(y));
    let (a, b) = (x.out.lists, y.out.lists);
    assert(a == merged(s1).items && b == merged(s2).items) by {
        reveal(well_built);
    }
    lemma_sources_tidy(x);
    lemma_sources_tidy(y);
    law_merge_is_exact(s1);
    law_merge_is_exact(s2);
    let t = b[j].0;
    assert(list_is_right(s2, b[j]));
    match b[j].1 {
        Listing::Dense(df) => {
            assert(holds_dense(s2, t, df));
            lemma_dense_source(y, data, t, df, y.out);
        },
        Listing::Ids(q) => {
            assert(q.contains(q[0]));
            assert(holds(s2, t, q[0]));
            lemma_holds_exactly(y, data, t, q[0]);
            assert(is_due(x, data, t, q[0]));
            lemma_holds_exactly(x, data, t, q[0]);
            assert(has_key(s1, t));
        },
    }
    choose|i: int| 0 <= i < a.len() && (#[trigger] a[i]).0 == t
}

/// Folding an overlay into the base gives the index of a build from scratch:
/// two full builds of the same tree write the same bytes but for the build id,
/// whatever the first of them reuses. Of a dense list only the count is kept,
/// and it is carried on; so each one that is reused has to be dense, with the
/// same count, in the other build.
pub proof fn law_compaction_equals_fresh_build(
    x: Building,
    y: Building,
    data: spec_fn(Seq<char>) -> Seq<u8>,
    build_id: u64,
)
    requires
        well_built(x),
        well_built(y),
        merges_exactly(x, data),
        merges_exactly(y, data),
        reuses_dense_as_in(x, y.out),
        reuses_no_dense(y),
        same_found(x.found, y.found),
        x.max == y.max,
        x.out.root == y.out.root,
    ensures
        image(under_id(x.out, build_id)) == image(under_id(y.out, build_id)),
{
    let n = y.out.files.len();
    assert(x.out.files =~= y.out.files) by {
        if x.found.len() > 0 {
            lemma_exact_record(x, data, 0);
            lemma_exact_record(y, data, 0);
        } else {
            reveal(well_built);
            lemma_picks(classes_in(x), x.set.full, 0, 0);
            lemma_picks(classes_in(y), y.set.full, 0, 0);
        }
        assert forall|k: int| 0 <= k < x.out.files.len() implies x.out.files[k] == y.out.files[k] by {
            lemma_exact_record(x, data, k);
            lemma_exact_record(y, data, k);
            assert(x.found[k].rel_path@ == y.found[k].rel_path@);
        }
    }
    let (a, b) = (x.out.lists, y.out.lists);
    assert(keys_ascending(a) && keys_ascending(b)) by {
        reveal(well_built);
        lemma_sources_tidy(x);
        lemma_sources_tidy(y);
        law_merge_is_exact(sources_in(x));
        law_merge_is_exact(sources_in(y));
    }
    let (wa, wb) = (all_as_written(a, n), all_as_written(b, n));
    assert(wa == wb) by {
        assert forall|i: int, j: int| 0 <= i < j < wa.len() implies wa[i].0 < wa[j].0 by {
            assert(a[i].0 < a[j].0);
        }
        assert forall|i: int, j: int| 0 <= i < j < wb.len() implies wb[i].0 < wb[j].0 by {
            assert(b[i].0 < b[j].0);
        }
        assert forall|i: int| 0 <= i < wa.len() implies wb.contains(#[trigger] wa[i]) by {
            let j = lemma_written_alike(x, y, data, i);
            assert(wb[j] == wa[i]);
        }
        assert forall|j: int| 0 <= j < wb.len() implies wa.contains(#[trigger] wb[j]) by {
            let i = lemma_written_back(x, y, data, j);
            let m = lemma_written_alike(x, y, data, i);
            if m < j {
                assert(b[m].0 < b[j].0);
            } else if j < m {
                assert(b[j].0 < b[m].0);
            }
            assert(wa[i] == wb[j]);
        }
        lemma_rising_same(wa, wb);
    }
    let (c, d) = (under_id(x.out, build_id), under_id(y.out, build_id));
    assert forall|i: int| 0 <= i < a.len() implies list_count((#[trigger] a[i]).1) <= u64::MAX by {
        reveal(well_built);
        lemma_counts_fit(x.out, a.len() as int, i);
    }
    assert forall|i: int| 0 <= i < b.len() implies list_count((#[trigger] b[i]).1) <= u64::MAX by {
        reveal(well_built);
        lemma_counts_fit(y.out, b.len() as int, i);
    }
    lemma_image_as_written(c);
    lemma_image_as_written(d);
    assert(x.out.tombstones == y.out.tombstones && x.out.ids.parent_id == y.out.ids.parent_id) by {
        reveal(well_built);
        reveal(merges_exactly);
    }
}

/// Spilling runs changes nothing: what counts is which pairs there are.
pub proof fn law_spilling_changes_nothing(s1: Sources, s2: Sources)
    requires
        tidy(s1),
        tidy(s2),
        s1.olds == s2.olds,
        forall|p: u64| #[trigger] some_run_has(s1.runs, p) <==> some_run_has(s2.runs, p),
    ensures
        merged(s1) == merged(s2),
{
    assert forall|t: u32, k: u32|
        #![trigger holds(s1, t, k)]
        #![trigger holds(s2, t, k)]
        holds(s1, t, k) <==> holds(s2, t, k) by {
        assert(some_run_has(s1.runs, pair_of(t, k)) <==> some_run_has(s2.runs, pair_of(t, k)));
    }
    law_merge_depends_on_contents(s1, s2);
}

} // verus!
