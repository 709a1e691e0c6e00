//! Finishing a build: binary discoveries, the merge, and the statistics.

use crate::index::builder::{paired_overlay, prior_of, BuildStats, Prior, WriteSet};
use crate::index::format::{bytes_of, IndexError, IndexReader};
use crate::index::image::{
    layout_of, written, Contents, Fault, IndexIds, FLAG_BINARY, FLAG_HIDDEN, FLAG_SCAN_ALWAYS,
    FLAG_UNINDEXED,
};
use crate::index::merge::{merged, Merged, Sources};
use crate::index::pairs::Run;
use crate::index::reuse::{reused, OldRun, Tail};
use crate::index::writer::{entries, write_index};
use vstd::prelude::*;

verus! {

/// Flags with the binary mark.
pub open spec fn marked(flags: u32) -> u32 {
    flags | FLAG_BINARY
}

/// Whether candidate `j` is that of one of the first `n` binary records.
pub open spec fn found_binary(sources: Seq<usize>, binaries: Seq<u32>, n: int, j: int) -> bool {
    exists|i: int| 0 <= i < n && sources[(#[trigger] binaries[i]) as int] == j
}

/// Whether record `k` is one of the first `n` binary ones.
pub open spec fn is_among(binaries: Seq<u32>, n: int, k: int) -> bool {
    exists|i: int| 0 <= i < n && #[trigger] binaries[i] == k
}

/// Whether a write set is `before` with the first `n` binary records marked.
pub open spec fn records_marked(
    before: WriteSet,
    after: WriteSet,
    binaries: Seq<u32>,
    n: int,
) -> bool {
    &&& after.full == before.full
    &&& after.sources@ == before.sources@
    &&& after.to_extract@ == before.to_extract@
    &&& after.remap_base@ == before.remap_base@
    &&& after.remap_over@ == before.remap_over@
    &&& after.tombstones@ == before.tombstones@
    &&& after.parent_id == before.parent_id
    &&& after.records@.len() == before.records@.len()
    &&& forall|k: int|
        0 <= k < before.records@.len() ==> (#[trigger] after.records@[k]).rel_path@
            == before.records@[k].rel_path@ && after.records@[k].size == before.records@[k].size
            && after.records@[k].mtime == before.records@[k].mtime && after.records@[k].flags
            == if is_among(binaries, n, k) {
            marked(before.records@[k].flags)
        } else {
            before.records@[k].flags
        }
}

/// Whether flags are `before` with those of the first `n` binary records'
/// candidates marked.
pub open spec fn flags_marked(
    before: Seq<u32>,
    after: Seq<u32>,
    sources: Seq<usize>,
    binaries: Seq<u32>,
    n: int,
) -> bool {
    &&& after.len() == before.len()
    &&& forall|j: int|
        0 <= j < before.len() ==> #[trigger] after[j] == if found_binary(
            sources,
            binaries,
            n,
            j,
        ) {
            marked(before[j])
        } else {
            before[j]
        }
}

/// Marks the records, and their candidates, that turned out binary.
pub fn mark_binaries(w: &mut WriteSet, flags: &mut Vec<u32>, binaries: &Vec<u32>)
    requires
        old(w).sources@.len() == old(w).records@.len(),
        forall|i: int| 0 <= i < binaries@.len() ==> #[trigger] binaries@[i] < old(w).records@.len(),
        forall|k: int|
            0 <= k < old(w).sources@.len() ==> #[trigger] old(w).sources@[k] < old(flags)@.len(),
    ensures
        records_marked(*old(w), *final(w), binaries@, binaries@.len() as int),
        flags_marked(
            old(flags)@,
            final(flags)@,
            old(w).sources@,
            binaries@,
            binaries@.len() as int,
        ),
{
    let ghost w0 = *w;
    let ghost f0 = flags@;
    for i in 0..binaries.len()
        invariant
            w0 == *old(w),
            f0 == old(flags)@,
            w0.sources@.len() == w0.records@.len(),
            forall|i: int| 0 <= i < binaries@.len() ==> #[trigger] binaries@[i] < w0.records@.len(),
            forall|k: int| 0 <= k < w0.sources@.len() ==> #[trigger] w0.sources@[k] < f0.len(),
            records_marked(w0, *w, binaries@, i as int),
            flags_marked(f0, flags@, w0.sources@, binaries@, i as int),
    {
        let id: usize = binaries[i] as usize;
        let ghost records = w.records@;
        let ghost fl = flags@;
        let f: u32 = w.records[id].flags;
        w.records[id].flags = f | FLAG_BINARY;
        let at: usize = w.sources[id];
        let g: u32 = flags[at];
        flags.set(at, g | FLAG_BINARY);
        proof {
            assert forall|x: u32| #[trigger] marked(marked(x)) == marked(x) by {
                assert((x | 2u32) | 2u32 == x | 2u32) by (bit_vector);
            }
            assert forall|k: int| is_among(binaries@, i as int + 1, k) <==> is_among(
                binaries@,
                i as int,
                k,
            ) || k == id by {
                if is_among(binaries@, i as int + 1, k) {
                    let m = choose|m: int| 0 <= m < i + 1 && #[trigger] binaries@[m] == k;
                    if m < i {
                        assert(binaries@[m] == k);
                    }
                }
                if is_among(binaries@, i as int, k) {
                    let m = choose|m: int| 0 <= m < i && #[trigger] binaries@[m] == k;
                    assert(binaries@[m] == k);
                }
                assert(binaries@[i as int] == id);
            }
            assert forall|j: int| found_binary(w0.sources@, binaries@, i as int + 1, j)
                <==> found_binary(w0.sources@, binaries@, i as int, j) || j == at by {
                if found_binary(w0.sources@, binaries@, i as int + 1, j) {
                    let m = choose|m: int|
                        0 <= m < i + 1 && w0.sources@[(#[trigger] binaries@[m]) as int] == j;
                    if m < i {
                        assert(w0.sources@[binaries@[m] as int] == j);
                    }
                }
                if found_binary(w0.sources@, binaries@, i as int, j) {
                    let m = choose|m: int|
                        0 <= m < i && w0.sources@[(#[trigger] binaries@[m]) as int] == j;
                    assert(w0.sources@[binaries@[m] as int] == j);
                }
                assert(w0.sources@[binaries@[i as int] as int] == at);
            }
            assert(w.records@[id as int].flags == marked(records[id as int].flags));
            assert(flags@[at as int] == marked(fl[at as int]));
            assert forall|k: int| 0 <= k < w0.records@.len() implies (#[trigger] w.records@[k]).flags
                == if is_among(binaries@, i as int + 1, k) {
                marked(w0.records@[k].flags)
            } else {
                w0.records@[k].flags
            } by {
                let x = w0.records@[k].flags;
                assert(marked(marked(x)) == marked(x));
                if k != id {
                    assert(w.records@[k] == records[k]);
                }
            }
            assert forall|j: int| 0 <= j < f0.len() implies #[trigger] flags@[j] == if found_binary(
                w0.sources@,
                binaries@,
                i as int + 1,
                j,
            ) {
                marked(f0[j])
            } else {
                f0[j]
            } by {
                let x = f0[j];
                assert(marked(marked(x)) == marked(x));
                if j != at {
                    assert(flags@[j] == fl[j]);
                }
            }
        }
    }
}

/// The number of the first `n` flags with one of the given bits.
pub open spec fn with_bits(flags: Seq<u32>, bits: u32, n: int) -> nat
    decreases n,
{
    if n <= 0 {
        0
    } else {
        with_bits(flags, bits, n - 1) + if flags[n - 1] & bits != 0 {
            1nat
        } else {
            0
        }
    }
}

fn count_bits(flags: &Vec<u32>, bits: u32) -> (r: usize)
    ensures
        r == with_bits(flags@, bits, flags@.len() as int),
        r <= flags@.len(),
{
    let mut r: usize = 0;
    for i in 0..flags.len()
        invariant
            r == with_bits(flags@, bits, i as int),
            r <= i,
    {
        if flags[i] & bits != 0 {
            r = r + 1;
        }
    }
    r
}

/// The statistics of a build, with the flags as they turned out.
pub fn build_stats(
    flags: &Vec<u32>,
    reused: usize,
    extracted: usize,
    bytes_read: u64,
) -> (r: BuildStats)
    ensures
        r.files_total == flags@.len(),
        r.files_indexed == flags@.len() - with_bits(flags@, FLAG_UNINDEXED, flags@.len() as int),
        r.files_binary == with_bits(flags@, FLAG_BINARY, flags@.len() as int),
        r.files_scan_always == with_bits(flags@, FLAG_SCAN_ALWAYS, flags@.len() as int),
        r.files_reused == reused,
        r.files_extracted == extracted,
        r.bytes_read == bytes_read,
{
    BuildStats {
        files_total: flags.len(),
        files_indexed: flags.len() - count_bits(flags, FLAG_UNINDEXED),
        files_reused: reused,
        files_binary: count_bits(flags, FLAG_BINARY),
        files_scan_always: count_bits(flags, FLAG_SCAN_ALWAYS),
        files_extracted: extracted,
        bytes_read,
    }
}

/// The lists that the base contributes: to a fresh base only, since an
/// overlay stands next to it.
pub open spec fn base_tail(p: Prior, w: WriteSet) -> Option<Tail> {
    match p.base {
        Some(b) if w.full => Some(reused(b, layout_of(b), w.remap_base@, 0)),
        _ => None,
    }
}

/// The lists that the old overlay contributes.
pub open spec fn over_tail(p: Prior, w: WriteSet) -> Option<Tail> {
    match p.over {
        Some(o) => Some(reused(o, layout_of(o), w.remap_over@, 0)),
        None => None,
    }
}

pub open spec fn tails(a: Option<Tail>, b: Option<Tail>) -> Seq<Tail> {
    match (a, b) {
        (Some(x), Some(y)) => seq![x, y],
        (Some(x), None) => seq![x],
        (None, Some(y)) => seq![y],
        (None, None) => Seq::empty(),
    }
}

/// The fault of lists that are corrupt from the start.
pub open spec fn bad_start(t: Option<Tail>) -> Option<Fault> {
    match t {
        Some(t) if t.items.len() == 0 => t.end,
        _ => None,
    }
}

pub open spec fn rests(runs: Seq<Run>) -> Seq<Seq<u64>> {
    Seq::new(runs.len(), |i: int| runs[i].rest())
}

/// The bytes that a build writes, or the fault that it finds in what it
/// reuses.
pub open spec fn build_result(
    root: Seq<char>,
    w: WriteSet,
    p: Prior,
    runs: Seq<Seq<u64>>,
    build_id: u64,
) -> Result<Seq<u8>, Fault> {
    let (a, b) = (base_tail(p, w), over_tail(p, w));
    if bad_start(a) is Some {
        Err(bad_start(a)->Some_0)
    } else if bad_start(b) is Some {
        Err(bad_start(b)->Some_0)
    } else {
        let all = merged(Sources { runs, olds: tails(a, b) });
        written(
            Contents {
                root,
                files: entries(w.records@),
                lists: all.items,
                tombstones: w.tombstones@,
                ids: IndexIds { build_id, parent_id: w.parent_id },
            },
            all.end,
        )
    }
}

/// Merges the runs and the lists that are reused, and writes the result.
pub fn write_set<'a>(
    root: &str,
    w: &'a WriteSet,
    base: Option<&'a IndexReader<'a>>,
    over: Option<&'a IndexReader<'a>>,
    runs: Vec<Run<'a>>,
    build_id: u64,
) -> (r: Result<Vec<u8>, IndexError>)
    requires
        forall|i: int| 0 <= i < runs@.len() ==> (#[trigger] runs@[i]).wf(),
    ensures
        ({
            let p = prior_of(bytes_of(base), bytes_of(over));
            let out = build_result(root@, *w, p, rests(runs@), build_id);
            match r {
                Ok(bytes) => out == Ok::<Seq<u8>, Fault>(bytes@),
                Err(e) => out == Err::<Seq<u8>, Fault>(e.fault()),
            }
        }),
{
    let ghost p = prior_of(bytes_of(base), bytes_of(over));
    let ghost all_runs = rests(runs@);
    let over = paired_overlay(base, over);
    let mut olds: Vec<OldRun<'a>> = Vec::new();
    if w.full {
        if let Some(b) = base {
            match OldRun::new(b, &w.remap_base) {
                Ok(run) => {
                    olds.push(run);
                },
                Err(e) => {
                    return Err(e);
                },
            }
        }
    }
    let ghost first = olds@.len();
    if let Some(o) = over {
        match OldRun::new(o, &w.remap_over) {
            Ok(run) => {
                olds.push(run);
            },
            Err(e) => {
                return Err(e);
            },
        }
    }
    let mut source = Merged::new(runs, olds);
    assert(source.sources().runs =~= all_runs);
    assert(source.sources().olds =~= tails(base_tail(p, *w), over_tail(p, *w)));
    write_index(
        root,
        &w.records,
        &mut source,
        &w.tombstones,
        IndexIds { build_id, parent_id: w.parent_id },
    )
}

/// Whether a build that failed is tried again from scratch: a corrupt
/// existing index surfaces while its lists stream through the merge.
pub fn retries(e: &IndexError) -> (r: bool)
    ensures
        r == !(e is Io),
{
    match e {
        IndexError::Io(_) => false,
        _ => true,
    }
}

proof fn lemma_with_bits(flags: Seq<u32>, bits: u32, n: int)
    requires
        0 <= n <= flags.len(),
    ensures
        with_bits(flags, bits, n) == flags.take(n).filter(|f: u32| f & bits != 0).len(),
    decreases n,
{
    reveal(Seq::filter);
    if n > 0 {
        lemma_with_bits(flags, bits, n - 1);
        assert(flags.take(n).drop_last() =~= flags.take(n - 1));
        assert(flags.take(n).last() == flags[n - 1]);
    }
}

/// The statistics count files: those with a mark are the files that have it.
pub proof fn law_statistics_count_files(flags: Seq<u32>, bits: u32)
    ensures
        with_bits(flags, bits, flags.len() as int) == flags.filter(|f: u32| f & bits != 0).len(),
{
    lemma_with_bits(flags, bits, flags.len() as int);
    assert(flags.take(flags.len() as int) =~= flags);
}

/// A file that turned out binary has the mark of one, and keeps its others; it
/// has no postings, as one that is too large has none, and else a file has.
pub proof fn law_binary_mark_is_kept(flags: u32)
    ensures
        marked(flags) & FLAG_BINARY != 0,
        marked(flags) & FLAG_SCAN_ALWAYS == flags & FLAG_SCAN_ALWAYS,
        marked(flags) & FLAG_HIDDEN == flags & FLAG_HIDDEN,
        flags & FLAG_UNINDEXED != 0 <==> flags & FLAG_BINARY != 0 || flags & FLAG_SCAN_ALWAYS != 0,
{
    assert((flags | 2u32) & 2u32 != 0) by (bit_vector);
    assert((flags | 2u32) & 1u32 == flags & 1u32) by (bit_vector);
    assert((flags | 2u32) & 4u32 == flags & 4u32) by (bit_vector);
    assert(flags & 3u32 != 0 <==> flags & 2u32 != 0 || flags & 1u32 != 0) by (bit_vector);
}

/// Each file that turned out binary has the mark of one in the flags that the
/// statistics count, and no other file's flags change.
pub proof fn law_found_binaries_are_marked(
    before: Seq<u32>,
    after: Seq<u32>,
    sources: Seq<usize>,
    binaries: Seq<u32>,
    j: int,
)
    requires
        flags_marked(before, after, sources, binaries, binaries.len() as int),
        0 <= j < before.len(),
    ensures
        after.len() == before.len(),
        (exists|i: int| 0 <= i < binaries.len() && sources[(#[trigger] binaries[i]) as int] == j)
            ==> after[j] & FLAG_BINARY != 0,
        !(exists|i: int| 0 <= i < binaries.len() && sources[(#[trigger] binaries[i]) as int] == j)
            ==> after[j] == before[j],
{
    law_binary_mark_is_kept(before[j]);
}

} // verus!
