//! Extraction of trigrams into pairs, and their accumulation under a budget.

use crate::index::pairs::{id_of, key_of, law_pair_holds_both, pack_pair, pair_of};
use crate::trigram::{
    is_binary, looks_binary, pack, sort_ascending, trigram_at, trigrams, windows,
};
use crate::triset::TriSet;
use vstd::prelude::*;

verus! {

/// Whether the first `n` trigrams of `data` hold `t`.
pub open spec fn seen(data: Seq<u8>, n: int, t: u32) -> bool {
    exists|i: int| 0 <= i < n && #[trigger] trigram_at(data, i) == t
}

/// The pairs of the first `n` trigrams of a file, each trigram once, in the
/// order of its first occurrence.
pub open spec fn fresh(data: Seq<u8>, id: u32, n: int) -> Seq<u64>
    decreases n,
{
    if n <= 0 {
        Seq::empty()
    } else if seen(data, n - 1, trigram_at(data, n - 1)) {
        fresh(data, id, n - 1)
    } else {
        fresh(data, id, n - 1).push(pair_of(trigram_at(data, n - 1), id))
    }
}

/// The pairs of a file.
pub open spec fn file_pairs(data: Seq<u8>, id: u32) -> Seq<u64> {
    fresh(data, id, windows(data).len() as int)
}

proof fn lemma_fresh(data: Seq<u8>, id: u32, n: int)
    requires
        0 <= n,
    ensures
        fresh(data, id, n).no_duplicates(),
        forall|p: u64| #[trigger]
            fresh(data, id, n).contains(p) <==> id_of(p) == id && seen(data, n, key_of(p)),
    decreases n,
{
    if n > 0 {
        lemma_fresh(data, id, n - 1);
        let t = trigram_at(data, n - 1);
        let before = fresh(data, id, n - 1);
        let after = fresh(data, id, n);
        law_pair_holds_both(t, id);
        assert forall|p: u64| #[trigger] after.contains(p) <==> id_of(p) == id && seen(
            data,
            n,
            key_of(p),
        ) by {
            let k = key_of(p);
            if seen(data, n, k) {
                let i = choose|i: int| 0 <= i < n && #[trigger] trigram_at(data, i) == k;
                if i < n - 1 {
                    assert(seen(data, n - 1, k));
                }
            }
            if seen(data, n - 1, k) {
                let i = choose|i: int| 0 <= i < n - 1 && #[trigger] trigram_at(data, i) == k;
                assert(seen(data, n, k));
            }
            if k == t {
                assert(seen(data, n, k));
            }
            if !seen(data, n - 1, t) {
                if before.contains(p) {
                    let i = choose|i: int| 0 <= i < before.len() && before[i] == p;
                    assert(after[i] == p);
                }
                if p == pair_of(t, id) {
                    assert(after[before.len() as int] == p);
                }
                if after.contains(p) && p != pair_of(t, id) {
                    let i = choose|i: int| 0 <= i < after.len() && after[i] == p;
                    assert(before[i] == p);
                }
            }
        }
        if !seen(data, n - 1, t) {
            assert(!before.contains(pair_of(t, id)));
        }
    }
}

/// The pairs of a file are those of its trigrams, each once.
pub proof fn law_file_pairs_are_its_trigrams(data: Seq<u8>, id: u32)
    ensures
        file_pairs(data, id).no_duplicates(),
        forall|p: u64| #[trigger]
            file_pairs(data, id).contains(p) <==> id_of(p) == id && trigrams(data).contains(key_of(p)),
{
    lemma_fresh(data, id, windows(data).len() as int);
    assert forall|p: u64| #[trigger]
        file_pairs(data, id).contains(p) <==> id_of(p) == id && trigrams(data).contains(
            key_of(p),
        ) by {
        assert(seen(data, windows(data).len() as int, key_of(p)) <==> trigrams(data).contains(key_of(p)));
    }
}

/// Emit one file's distinct trigrams as pairs. O(bytes), no sorting: the
/// global run sort orders everything at once later.
pub fn extract_pairs(data: &[u8], id: u32, tri: &mut TriSet, out: &mut Vec<u64>)
    requires
        old(tri).wf(),
        old(tri).set() == Set::<u32>::empty(),
    ensures
        final(tri).wf(),
        final(tri).set() == Set::<u32>::empty(),
        final(out)@ == old(out)@ + file_pairs(data@, id),
{
    let ghost before = out@;
    let mut n: usize = 0;
    if data.len() >= 3 {
        n = data.len() - 2;
    }
    assert(n == windows(data@).len());
    assert(out@ =~= before + fresh(data@, id, 0));
    for i in 0..n
        invariant
            n == windows(data@).len(),
            n > 0 ==> n + 2 == data@.len(),
            tri.wf(),
            forall|t: u32| #[trigger] tri.set().contains(t) <==> seen(data@, i as int, t),
            out@ == before + fresh(data@, id, i as int),
    {
        let t: u32 = pack(data[i], data[i + 1], data[i + 2]);
        assert(t == trigram_at(data@, i as int));
        let ghost members = tri.set();
        if tri.insert(t) {
            out.push(pack_pair(t, id));
            assert(out@ =~= before + fresh(data@, id, i as int + 1));
        }
        assert forall|u: u32| #[trigger] tri.set().contains(u) <==> seen(
            data@,
            i as int + 1,
            u,
        ) by {
            assert(members.contains(u) <==> seen(data@, i as int, u));
            if seen(data@, i as int + 1, u) {
                let k = choose|k: int| 0 <= k < i + 1 && #[trigger] trigram_at(data@, k) == u;
                if k < i {
                    assert(seen(data@, i as int, u));
                }
            }
            if seen(data@, i as int, u) {
                let k = choose|k: int| 0 <= k < i && #[trigger] trigram_at(data@, k) == u;
                assert(seen(data@, i as int + 1, u));
            }
            if u == t {
                assert(seen(data@, i as int + 1, u));
            }
        }
    }
    tri.clear();
}

/// Pairs per message: 512K pairs = 4 MiB.
pub const FLUSH_PAIRS: usize = 524288;

/// One batch of extraction results. Batching keeps traffic to a few messages
/// per MiB instead of one per file.
#[derive(Debug)]
pub struct WorkMsg {
    /// Packed `(trigram << 32) | file_id` pairs.
    pub pairs: Vec<u64>,
    /// Files that turned out binary (or vanished mid-build).
    pub binaries: Vec<u32>,
    pub bytes: u64,
}

impl WorkMsg {
    pub fn new() -> (r: WorkMsg)
        ensures
            r.pairs@ == Seq::<u64>::empty(),
            r.binaries@ == Seq::<u32>::empty(),
            r.bytes == 0,
    {
        WorkMsg { pairs: Vec::new(), binaries: Vec::new(), bytes: 0 }
    }

    /// Adds a file: the pairs of its text. One that is binary or could not be
    /// read is excluded from search rather than half-indexed.
    pub fn add_file(&mut self, id: u32, data: Option<&[u8]>, tri: &mut TriSet)
        requires
            old(tri).wf(),
            old(tri).set() == Set::<u32>::empty(),
        ensures
            final(tri).wf(),
            final(tri).set() == Set::<u32>::empty(),
            match data {
                Some(d) if !is_binary(d@) => {
                    &&& final(self).pairs@ == old(self).pairs@ + file_pairs(d@, id)
                    &&& final(self).binaries@ == old(self).binaries@
                    &&& final(self).bytes == if old(self).bytes + d@.len() > u64::MAX {
                        u64::MAX as int
                    } else {
                        old(self).bytes + d@.len()
                    }
                },
                _ => {
                    &&& final(self).pairs@ == old(self).pairs@
                    &&& final(self).binaries@ == old(self).binaries@.push(id)
                    &&& final(self).bytes == old(self).bytes
                },
            },
    {
        match data {
            Some(d) => {
                if looks_binary(d) {
                    self.binaries.push(id);
                } else {
                    self.bytes = self.bytes.saturating_add(d.len() as u64);
                    extract_pairs(d, id, tri, &mut self.pairs);
                }
            },
            None => {
                self.binaries.push(id);
            },
        }
    }

    /// Whether the batch is due.
    pub fn is_full(&self) -> (r: bool)
        ensures
            r == (self.pairs@.len() >= FLUSH_PAIRS),
    {
        self.pairs.len() >= FLUSH_PAIRS
    }

    /// Whether there is nothing to hand over.
    pub fn is_empty(&self) -> (r: bool)
        ensures
            r == (self.pairs@.len() == 0 && self.binaries@.len() == 0 && self.bytes == 0),
    {
        self.pairs.len() == 0 && self.binaries.len() == 0 && self.bytes == 0
    }
}

/// No pair is less than one before it.
pub open spec fn ordered_pairs(s: Seq<u64>) -> bool {
    forall|i: int, j: int| 0 <= i <= j < s.len() ==> s[i] <= s[j]
}

/// Bounded pair accumulator. Batches arrive in completion order; over budget
/// the buffer is sorted once and handed out as a run, so peak memory stays
/// near the budget however many text files the tree has.
pub struct PairAcc {
    pairs: Vec<u64>,
    /// Spill threshold in pairs (budget bytes / 8).
    cap: usize,
}

impl PairAcc {
    /// What is held.
    pub closed spec fn pairs(&self) -> Seq<u64> {
        self.pairs@
    }

    /// The number of pairs at which a run is spilled.
    pub closed spec fn cap(&self) -> nat {
        self.cap as nat
    }

    pub fn new(budget: usize) -> (r: PairAcc)
        ensures
            r.pairs() == Seq::<u64>::empty(),
            r.cap() == if budget < 8 {
                1
            } else {
                budget as nat / 8
            },
    {
        let mut cap: usize = budget / 8;
        if cap < 1 {
            cap = 1;
        }
        PairAcc { pairs: Vec::new(), cap }
    }

    /// Adds a batch; the run to spill when that is due.
    pub fn extend(&mut self, batch: Vec<u64>) -> (run: Option<Vec<u64>>)
        ensures
            final(self).cap() == old(self).cap(),
            ({
                let all = old(self).pairs() + batch@;
                match run {
                    Some(run) => all.len() >= old(self).cap() && run@.to_multiset()
                        == all.to_multiset() && ordered_pairs(run@) && final(self).pairs()
                        == Seq::<u64>::empty(),
                    None => all.len() < old(self).cap() && final(self).pairs() == all,
                }
            }),
    {
        let ghost before = self.pairs@;
        let mut batch = batch;
        self.pairs.append(&mut batch);
        if self.pairs.len() < self.cap {
            return None;
        }
        let mut run: Vec<u64> = Vec::new();
        std::mem::swap(&mut run, &mut self.pairs);
        sort_ascending(&mut run);
        Some(run)
    }

    /// The remainder; it is merged from memory.
    pub fn finish(self) -> (run: Vec<u64>)
        ensures
            run@.to_multiset() == self.pairs().to_multiset(),
            ordered_pairs(run@),
    {
        let mut run = self.pairs;
        sort_ascending(&mut run);
        run
    }
}

} // verus!
