//! Merging sorted runs and reused indexes into one stream of lists.

use crate::ids::{ascending_of, lemma_ascending_of, union};
use crate::index::format::IndexError;
use crate::index::image::Fault;
use crate::index::pairs::{beyond, key_of, pair_key, pair_of, Run};
use crate::index::postings::{Listing, Postings};
use crate::index::reuse::{no_tail, OldRun, Tail};
use crate::index::writer::PostingsSource;
use crate::trigram::ascending;
use vstd::prelude::*;

verus! {

/// What there is to merge: runs of pairs and reused lists.
#[verifier::ext_equal]
pub struct Sources {
    pub runs: Seq<Seq<u64>>,
    pub olds: Seq<Tail>,
}

/// Whether a run's next pair is of `key`.
pub open spec fn run_heads(run: Seq<u64>, key: u32) -> bool {
    run.len() > 0 && key_of(run[0]) == key
}

/// Whether the next reused list is that of `key`.
pub open spec fn old_heads(t: Tail, key: u32) -> bool {
    t.items.len() > 0 && t.items[0].0 == key
}

/// Whether one of the first `n` runs has `key` next.
pub open spec fn runs_head(runs: Seq<Seq<u64>>, n: int, key: u32) -> bool {
    exists|i: int| 0 <= i < n && run_heads(#[trigger] runs[i], key)
}

/// Whether one of the first `n` reused indexes has `key` next.
pub open spec fn olds_head(olds: Seq<Tail>, n: int, key: u32) -> bool {
    exists|i: int| 0 <= i < n && old_heads(#[trigger] olds[i], key)
}

/// Whether any of the sources has `key` next.
pub open spec fn heads(s: Sources, key: u32) -> bool {
    runs_head(s.runs, s.runs.len() as int, key) || olds_head(s.olds, s.olds.len() as int, key)
}

/// Whether `key` is the least one that comes next.
pub open spec fn least(s: Sources, key: u32) -> bool {
    heads(s, key) && forall|k: u32| #[trigger] heads(s, k) ==> key <= k
}

/// The least key that comes next.
pub open spec fn next_key(s: Sources) -> u32 {
    choose|key: u32| least(s, key)
}

/// The ids of `key` in the first `n` runs.
pub open spec fn run_ids(runs: Seq<Seq<u64>>, key: u32, n: int) -> Set<u32> {
    Set::new(
        |id: u32|
            exists|i: int| 0 <= i < n && (#[trigger] runs[i]).contains(pair_of(key, id)),
    )
}

/// Whether the next reused list is that of `key` and holds `id`.
pub open spec fn old_has(t: Tail, key: u32, id: u32) -> bool {
    old_heads(t, key) && (t.items[0].1 matches Listing::Ids(ids) && ids.contains(id))
}

/// The ids of `key` in the first `n` reused indexes.
pub open spec fn old_ids(olds: Seq<Tail>, key: u32, n: int) -> Set<u32> {
    Set::new(|id: u32| exists|i: int| 0 <= i < n && old_has(#[trigger] olds[i], key, id))
}

/// The greatest count of a dense list of `key` in the first `n` reused
/// indexes.
pub open spec fn dense_count(olds: Seq<Tail>, key: u32, n: int) -> Option<u64>
    decreases n,
{
    if n <= 0 {
        None
    } else {
        let before = dense_count(olds, key, n - 1);
        match olds[n - 1].items[0].1 {
            Listing::Dense(df) if old_heads(olds[n - 1], key) => match before {
                Some(d) if d >= df => before,
                _ => Some(df),
            },
            _ => before,
        }
    }
}

/// The list of `key`. A dense one swallows the rest: its ids are unknowable,
/// so the merged list stays dense, which only weakens the constraint.
pub open spec fn list_for(s: Sources, key: u32) -> Listing {
    match dense_count(s.olds, key, s.olds.len() as int) {
        Some(df) => Listing::Dense(df),
        None => Listing::Ids(
            ascending_of(
                run_ids(s.runs, key, s.runs.len() as int).union(
                    old_ids(s.olds, key, s.olds.len() as int),
                ),
            ),
        ),
    }
}

/// The fault behind the lists of `key` in the first `n` reused indexes.
pub open spec fn fault_behind(olds: Seq<Tail>, key: u32, n: int) -> Option<Fault>
    decreases n,
{
    if n <= 0 {
        None
    } else if fault_behind(olds, key, n - 1) is Some {
        fault_behind(olds, key, n - 1)
    } else if old_heads(olds[n - 1], key) && olds[n - 1].items.len() == 1 {
        olds[n - 1].end
    } else {
        None
    }
}

/// A reused index behind its list of `key`.
pub open spec fn past_old(t: Tail, key: u32) -> Tail {
    if old_heads(t, key) {
        Tail { items: t.items.drop_first(), end: t.end }
    } else {
        t
    }
}

/// The sources behind `key`.
pub open spec fn past(s: Sources, key: u32) -> Sources {
    Sources {
        runs: Seq::new(s.runs.len(), |i: int| beyond(s.runs[i], key)),
        olds: Seq::new(s.olds.len(), |i: int| past_old(s.olds[i], key)),
    }
}

/// The number of pairs in the first `n` runs.
pub open spec fn run_weight(runs: Seq<Seq<u64>>, n: int) -> nat
    decreases n,
{
    if n <= 0 {
        0
    } else {
        run_weight(runs, n - 1) + runs[n - 1].len()
    }
}

/// The number of lists in the first `n` reused indexes.
pub open spec fn old_weight(olds: Seq<Tail>, n: int) -> nat
    decreases n,
{
    if n <= 0 {
        0
    } else {
        old_weight(olds, n - 1) + olds[n - 1].items.len()
    }
}

pub open spec fn weight(s: Sources) -> nat {
    run_weight(s.runs, s.runs.len() as int) + old_weight(s.olds, s.olds.len() as int)
}

pub proof fn lemma_beyond(run: Seq<u64>, key: u32)
    ensures
        beyond(run, key).len() <= run.len(),
        run_heads(run, key) ==> beyond(run, key).len() < run.len(),
        !run_heads(beyond(run, key), key),
        beyond(run, key) == run.skip(run.len() - beyond(run, key).len()),
        forall|i: int|
            0 <= i < run.len() - beyond(run, key).len() ==> key_of(#[trigger] run[i]) == key,
    decreases run.len(),
{
    let out = beyond(run, key);
    if run_heads(run, key) {
        let less = run.drop_first();
        lemma_beyond(less, key);
        assert(run.skip(run.len() - out.len()) =~= less.skip(less.len() - out.len()));
        assert forall|i: int| 0 <= i < run.len() - out.len() implies key_of(#[trigger] run[i])
            == key by {
            if i > 0 {
                assert(less[i - 1] == run[i]);
            }
        }
    } else {
        assert(run.skip(0) =~= run);
    }
}

proof fn lemma_run_weight(runs: Seq<Seq<u64>>, key: u32, n: int, out: Seq<Seq<u64>>)
    requires
        0 <= n <= runs.len(),
        out == Seq::new(runs.len(), |i: int| beyond(runs[i], key)),
    ensures
        run_weight(out, n) <= run_weight(runs, n),
        runs_head(runs, n, key) ==> run_weight(out, n) < run_weight(runs, n),
    decreases n,
{
    if n > 0 {
        lemma_run_weight(runs, key, n - 1, out);
        lemma_beyond(runs[n - 1], key);
        if runs_head(runs, n, key) && !run_heads(runs[n - 1], key) {
            let i = choose|i: int| 0 <= i < n && run_heads(#[trigger] runs[i], key);
            assert(runs_head(runs, n - 1, key));
        }
    }
}

proof fn lemma_old_weight(olds: Seq<Tail>, key: u32, n: int, out: Seq<Tail>)
    requires
        0 <= n <= olds.len(),
        out == Seq::new(olds.len(), |i: int| past_old(olds[i], key)),
    ensures
        old_weight(out, n) <= old_weight(olds, n),
        olds_head(olds, n, key) ==> old_weight(out, n) < old_weight(olds, n),
    decreases n,
{
    if n > 0 {
        lemma_old_weight(olds, key, n - 1, out);
        if olds_head(olds, n, key) && !old_heads(olds[n - 1], key) {
            let i = choose|i: int| 0 <= i < n && old_heads(#[trigger] olds[i], key);
            assert(olds_head(olds, n - 1, key));
        }
    }
}

/// Going past a key leaves less.
pub proof fn lemma_past_lighter(s: Sources, key: u32)
    requires
        heads(s, key),
    ensures
        weight(past(s, key)) < weight(s),
{
    let out = past(s, key);
    lemma_run_weight(s.runs, key, s.runs.len() as int, out.runs);
    lemma_old_weight(s.olds, key, s.olds.len() as int, out.olds);
}

/// Where any key comes next, one is the least.
pub proof fn lemma_least_exists(s: Sources, key: u32)
    requires
        heads(s, key),
    ensures
        least(s, next_key(s)),
    decreases key,
{
    if !least(s, key) {
        let k = choose|k: u32| #[trigger] heads(s, k) && k < key;
        lemma_least_exists(s, k);
    }
}

/// The merged lists, keys ascending, and the fault that ends them, if any.
pub open spec fn merged(s: Sources) -> Tail
    decreases weight(s),
{
    if !(exists|k: u32| heads(s, k)) {
        no_tail()
    } else {
        let key = next_key(s);
        proof {
            lemma_least_exists(s, choose|k: u32| heads(s, k));
            lemma_past_lighter(s, key);
        }
        match fault_behind(s.olds, key, s.olds.len() as int) {
            Some(f) => Tail { items: Seq::empty(), end: Some(f) },
            None => Tail {
                items: seq![(key, list_for(s, key))] + merged(past(s, key)).items,
                end: merged(past(s, key)).end,
            },
        }
    }
}

proof fn lemma_fault_stays(olds: Seq<Tail>, key: u32, n: int, m: int)
    requires
        0 <= n <= m,
        fault_behind(olds, key, n) is Some,
    ensures
        fault_behind(olds, key, m) == fault_behind(olds, key, n),
    decreases m,
{
    if n < m {
        lemma_fault_stays(olds, key, n, m - 1);
    }
}

/// Whether `best` is the least key that comes next in the first `n` runs.
pub open spec fn first_of_runs(runs: Seq<Seq<u64>>, n: int, best: Option<u32>) -> bool {
    match best {
        Some(key) => runs_head(runs, n, key) && forall|k: u32| #[trigger]
            runs_head(runs, n, k) ==> key <= k,
        None => forall|k: u32| !#[trigger] runs_head(runs, n, k),
    }
}

/// Whether `best` is the least key that comes next in the first `n` reused
/// indexes.
pub open spec fn first_of_olds(olds: Seq<Tail>, n: int, best: Option<u32>) -> bool {
    match best {
        Some(key) => olds_head(olds, n, key) && forall|k: u32| #[trigger]
            olds_head(olds, n, k) ==> key <= k,
        None => forall|k: u32| !#[trigger] olds_head(olds, n, k),
    }
}

/// The lesser of two keys.
fn lesser(a: Option<u32>, b: u32) -> (r: u32)
    ensures
        r == match a {
            Some(k) => if k <= b {
                k
            } else {
                b
            },
            None => b,
        },
{
    match a {
        Some(k) => if k <= b {
            k
        } else {
            b
        },
        None => b,
    }
}

/// K-way merge of runs of pairs and reused lists into the final stream of
/// lists.
pub struct Merged<'a> {
    runs: Vec<Run<'a>>,
    olds: Vec<OldRun<'a>>,
}

impl<'a> Merged<'a> {
    /// What there is to merge still.
    pub closed spec fn sources(&self) -> Sources {
        Sources {
            runs: Seq::new(self.runs@.len(), |i: int| self.runs@[i].rest()),
            olds: Seq::new(self.olds@.len(), |i: int| self.olds@[i].tail()),
        }
    }

    pub closed spec fn valid(&self) -> bool {
        &&& forall|i: int| 0 <= i < self.runs@.len() ==> (#[trigger] self.runs@[i]).wf()
        &&& forall|i: int| 0 <= i < self.olds@.len() ==> (#[trigger] self.olds@[i]).wf()
    }

    pub fn new(runs: Vec<Run<'a>>, olds: Vec<OldRun<'a>>) -> (r: Merged<'a>)
        requires
            forall|i: int| 0 <= i < runs@.len() ==> (#[trigger] runs@[i]).wf(),
            forall|i: int| 0 <= i < olds@.len() ==> (#[trigger] olds@[i]).wf(),
        ensures
            r.valid(),
            r.sources() == (Sources {
                runs: Seq::new(runs@.len(), |i: int| runs@[i].rest()),
                olds: Seq::new(olds@.len(), |i: int| olds@[i].tail()),
            }),
    {
        Merged { runs, olds }
    }

    /// The least key that comes next in the runs.
    fn least_run_key(&self) -> (r: Option<u32>)
        requires
            self.valid(),
        ensures
            first_of_runs(self.sources().runs, self.sources().runs.len() as int, r),
    {
        let ghost s = self.sources();
        let mut best: Option<u32> = None;
        let count: usize = self.runs.len();
        for i in 0..count
            invariant
                self.valid(),
                s == self.sources(),
                count == s.runs.len(),
                count == self.runs@.len(),
                first_of_runs(s.runs, i as int, best),
        {
            let run = &self.runs[i];
            assert(s.runs[i as int] == run.rest());
            let ghost was = best;
            let head = run.peek();
            best = match head {
                Some(p) => Some(lesser(best, pair_key(p))),
                None => best,
            };
            proof {
                assert forall|k: u32| #[trigger] runs_head(s.runs, i as int + 1, k) <==> runs_head(
                    s.runs,
                    i as int,
                    k,
                ) || run_heads(s.runs[i as int], k) by {
                    if runs_head(s.runs, i as int + 1, k) && !run_heads(s.runs[i as int], k) {
                        let j = choose|j: int| 0 <= j < i + 1 && run_heads(#[trigger] s.runs[j], k);
                        assert(run_heads(s.runs[j], k));
                    }
                    if runs_head(s.runs, i as int, k) {
                        let j = choose|j: int| 0 <= j < i && run_heads(#[trigger] s.runs[j], k);
                        assert(run_heads(s.runs[j], k));
                    }
                }
            }
        }
        best
    }

    /// The least key that comes next in the reused indexes.
    fn least_old_key(&self) -> (r: Option<u32>)
        requires
            self.valid(),
        ensures
            first_of_olds(self.sources().olds, self.sources().olds.len() as int, r),
    {
        let ghost s = self.sources();
        let mut best: Option<u32> = None;
        let count: usize = self.olds.len();
        for i in 0..count
            invariant
                self.valid(),
                s == self.sources(),
                count == s.olds.len(),
                count == self.olds@.len(),
                first_of_olds(s.olds, i as int, best),
        {
            let old = &self.olds[i];
            assert(s.olds[i as int] == old.tail());
            let head = old.peek();
            best = match head {
                Some(key) => Some(lesser(best, key)),
                None => best,
            };
            proof {
                assert forall|k: u32| #[trigger] olds_head(s.olds, i as int + 1, k) <==> olds_head(
                    s.olds,
                    i as int,
                    k,
                ) || old_heads(s.olds[i as int], k) by {
                    if olds_head(s.olds, i as int + 1, k) && !old_heads(s.olds[i as int], k) {
                        let j = choose|j: int| 0 <= j < i + 1 && old_heads(#[trigger] s.olds[j], k);
                        assert(old_heads(s.olds[j], k));
                    }
                    if olds_head(s.olds, i as int, k) {
                        let j = choose|j: int| 0 <= j < i && old_heads(#[trigger] s.olds[j], k);
                        assert(old_heads(s.olds[j], k));
                    }
                }
            }
        }
        best
    }

    /// The least key that comes next.
    fn least_key(&self) -> (r: Option<u32>)
        requires
            self.valid(),
        ensures
            match r {
                Some(key) => least(self.sources(), key),
                None => forall|k: u32| !#[trigger] heads(self.sources(), k),
            },
    {
        let run_key = self.least_run_key();
        match self.least_old_key() {
            Some(key) => Some(lesser(run_key, key)),
            None => run_key,
        }
    }

    /// Takes the ids of `key` from the runs.
    fn take_runs(&mut self, key: u32) -> (ids: Vec<u32>)
        requires
            old(self).valid(),
            forall|k: u32| #[trigger] heads(old(self).sources(), k) ==> key <= k,
        ensures
            final(self).valid(),
            final(self).sources() == (Sources {
                runs: past(old(self).sources(), key).runs,
                olds: old(self).sources().olds,
            }),
            ascending(ids@),
            ids@.to_set() == run_ids(
                old(self).sources().runs,
                key,
                old(self).sources().runs.len() as int,
            ),
    {
        let ghost s = self.sources();
        let ghost n = s.runs.len() as int;
        let mut ids: Vec<u32> = Vec::new();
        assert(ids@.to_set() =~= run_ids(s.runs, key, 0));
        let count: usize = self.runs.len();
        for i in 0..count
            invariant
                self.valid(),
                self.runs@.len() == n,
                n == count,
                n == s.runs.len(),
                forall|k: u32| #[trigger] heads(s, k) ==> key <= k,
                self.sources().olds == s.olds,
                forall|j: int| 0 <= j < i ==> (#[trigger] self.runs@[j]).rest() == beyond(s.runs[j], key),
                forall|j: int| i <= j < n ==> (#[trigger] self.runs@[j]).rest() == s.runs[j],
                ascending(ids@),
                ids@.to_set() == run_ids(s.runs, key, i as int),
        {
            proof {
                if s.runs[i as int].len() > 0 {
                    let k = key_of(s.runs[i as int][0]);
                    assert(run_heads(s.runs[i as int], k));
                    assert(heads(s, k));
                }
            }
            let ghost before = ids@;
            let more = self.runs[i].take_key(key);
            let ghost added = more@;
            ids = union(ids, more);
            assert(ids@.to_set() =~= run_ids(s.runs, key, i as int + 1)) by {
                assert forall|id: u32| ids@.to_set().contains(id) <==> run_ids(
                    s.runs,
                    key,
                    i as int + 1,
                ).contains(id) by {
                    assert(ids@.to_set().contains(id) <==> before.to_set().contains(id)
                        || added.to_set().contains(id));
                    assert(added.contains(id) <==> s.runs[i as int].contains(pair_of(key, id)));
                    assert(before.to_set().contains(id) <==> run_ids(s.runs, key, i as int).contains(
                        id,
                    ));
                    if run_ids(s.runs, key, i as int + 1).contains(id) {
                        let j = choose|j: int|
                            0 <= j < i + 1 && (#[trigger] s.runs[j]).contains(pair_of(key, id));
                        if j < i {
                            assert(run_ids(s.runs, key, i as int).contains(id));
                        }
                    }
                    if run_ids(s.runs, key, i as int).contains(id) {
                        let j = choose|j: int|
                            0 <= j < i && (#[trigger] s.runs[j]).contains(pair_of(key, id));
                        assert(s.runs[j].contains(pair_of(key, id)));
                    }
                }
            }
        }
        assert(self.sources().runs =~= past(s, key).runs);
        ids
    }

    /// Takes the lists of `key` from the reused indexes: their ids together
    /// with the given ones, and the count if one of them is dense.
    fn take_olds(&mut self, key: u32, start: Vec<u32>) -> (r: Result<(Vec<u32>, Option<u64>), IndexError>)
        requires
            old(self).valid(),
            ascending(start@),
        ensures
            ({
                let s = old(self).sources();
                let n = s.olds.len() as int;
                match r {
                    Ok((ids, dense)) => {
                        &&& final(self).valid()
                        &&& final(self).sources() == (Sources {
                            runs: s.runs,
                            olds: past(s, key).olds,
                        })
                        &&& ascending(ids@)
                        &&& ids@.to_set() == start@.to_set().union(old_ids(s.olds, key, n))
                        &&& dense == dense_count(s.olds, key, n)
                        &&& fault_behind(s.olds, key, n) is None
                    },
                    Err(e) => fault_behind(s.olds, key, n) == Some(e.fault()),
                }
            }),
    {
        let ghost s = self.sources();
        let ghost first = start@;
        let mut ids = start;
        let mut dense: Option<u64> = None;
        assert(ids@.to_set() =~= first.to_set().union(old_ids(s.olds, key, 0)));
        let count: usize = self.olds.len();
        for i in 0..count
            invariant
                s == old(self).sources(),
                count == s.olds.len(),
                self.valid(),
                self.olds@.len() == count,
                self.sources().runs == s.runs,
                forall|j: int| 0 <= j < i ==> (#[trigger] self.olds@[j]).tail() == past_old(s.olds[j], key),
                forall|j: int| i <= j < count ==> (#[trigger] self.olds@[j]).tail() == s.olds[j],
                ascending(ids@),
                ids@.to_set() == first.to_set().union(old_ids(s.olds, key, i as int)),
                dense == dense_count(s.olds, key, i as int),
                fault_behind(s.olds, key, i as int) is None,
        {
            let ghost before = ids@;
            let ghost t = s.olds[i as int];
            let head = self.olds[i].peek();
            let mut here = false;
            if let Some(k) = head {
                here = k == key;
            }
            assert(here == old_heads(t, key));
            if here {
                match self.olds[i].take() {
                    Ok(Postings::Ids(more)) => {
                        let ghost added = more@;
                        assert(t.items[0].1 == Listing::Ids(added));
                        ids = union(ids, more);
                    },
                    Ok(Postings::Dense(df)) => {
                        assert(t.items[0].1 == Listing::Dense(df));
                        dense = match dense {
                            Some(d) => if d >= df {
                                Some(d)
                            } else {
                                Some(df)
                            },
                            None => Some(df),
                        };
                    },
                    Err(e) => {
                        proof {
                            lemma_fault_stays(s.olds, key, i as int + 1, count as int);
                        }
                        return Err(e);
                    },
                }
            }
            assert(ids@.to_set() =~= first.to_set().union(old_ids(s.olds, key, i as int + 1))) by {
                assert forall|id: u32| ids@.to_set().contains(id) <==> first.to_set().union(
                    old_ids(s.olds, key, i as int + 1),
                ).contains(id) by {
                    assert(before.to_set().contains(id) <==> first.to_set().contains(id)
                        || old_ids(s.olds, key, i as int).contains(id));
                    assert(ids@.to_set().contains(id) <==> before.to_set().contains(id) || old_has(
                        t,
                        key,
                        id,
                    ));
                    if old_ids(s.olds, key, i as int + 1).contains(id) {
                        let j = choose|j: int|
                            0 <= j < i + 1 && old_has(#[trigger] s.olds[j], key, id);
                        if j < i {
                            assert(old_ids(s.olds, key, i as int).contains(id));
                        }
                    }
                    if old_ids(s.olds, key, i as int).contains(id) {
                        let j = choose|j: int| 0 <= j < i && old_has(#[trigger] s.olds[j], key, id);
                        assert(old_has(s.olds[j], key, id));
                    }
                }
            }
        }
        assert(self.sources().olds =~= past(s, key).olds);
        Ok((ids, dense))
    }
}

impl<'a> PostingsSource for Merged<'a> {
    open spec fn lists(&self) -> Seq<(u32, Listing)> {
        merged(self.sources()).items
    }

    open spec fn fault(&self) -> Option<Fault> {
        merged(self.sources()).end
    }

    open spec fn wf(&self) -> bool {
        self.valid()
    }

    fn next(&mut self) -> (r: Result<Option<(u32, Postings)>, IndexError>) {
        let ghost s = self.sources();
        let key: u32 = match self.least_key() {
            Some(key) => key,
            None => {
                return Ok(None);
            },
        };
        proof {
            assert(least(s, next_key(s)));
            assert(key == next_key(s));
        }
        let ids = self.take_runs(key);
        match self.take_olds(key, ids) {
            Err(e) => Err(e),
            Ok((ids, dense)) => {
                assert(self.sources() =~= past(s, key));
                let list = match dense {
                    Some(df) => Postings::Dense(df),
                    None => Postings::Ids(ids),
                };
                proof {
                    lemma_ascending_of(ids@);
                    assert(list@ == list_for(s, key));
                    assert(merged(s).items.drop_first() =~= merged(past(s, key)).items);
                }
                Ok(Some((key, list)))
            },
        }
    }
}

} // verus!
