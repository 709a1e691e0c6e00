//! What a merge of runs and reused lists holds.

use crate::ids::{ascending_of, lemma_ascending_exists, lemma_ascending_same};
use crate::index::merge::{
    dense_count, fault_behind, heads, least, lemma_beyond, lemma_least_exists, lemma_past_lighter,
    list_for, merged, next_key, old_has, old_heads, old_ids, olds_head, past, past_old, run_heads,
    run_ids, runs_head, weight, Sources,
};
use crate::index::pairs::{
    beyond, id_of, key_of, law_pair_holds_both, lemma_pair_order, lemma_pair_parts, pair_of, rising,
};
use crate::index::postings::Listing;
use crate::index::readback::keys_ascending;
use crate::index::reuse::Tail;
use crate::trigram::ascending;
use vstd::prelude::*;

verus! {

/// Whether a list is that of `key` and holds `id`.
pub open spec fn item_holds(item: (u32, Listing), key: u32, id: u32) -> bool {
    item.0 == key && (item.1 matches Listing::Ids(ids) && ids.contains(id))
}

/// Whether a list of `key` holds `id`.
pub open spec fn lists_hold(items: Seq<(u32, Listing)>, key: u32, id: u32) -> bool {
    exists|j: int| 0 <= j < items.len() && item_holds(#[trigger] items[j], key, id)
}

/// Whether a list of `key` is dense, with count `df`.
pub open spec fn lists_dense(items: Seq<(u32, Listing)>, key: u32, df: u64) -> bool {
    exists|j: int| 0 <= j < items.len() && #[trigger] items[j] == (key, Listing::Dense(df))
}

/// Whether reused lists are as a valid index has them: whole, keys ascending,
/// none empty.
pub open spec fn tidy_tail(t: Tail) -> bool {
    &&& t.end is None
    &&& keys_ascending(t.items)
    &&& forall|j: int|
        0 <= j < t.items.len() ==> ((#[trigger] t.items[j]).1 matches Listing::Ids(ids) ==> ids.len()
            > 0)
}

/// Whether every source is sorted and whole.
pub open spec fn tidy(s: Sources) -> bool {
    &&& forall|i: int| 0 <= i < s.runs.len() ==> rising(#[trigger] s.runs[i])
    &&& forall|i: int| 0 <= i < s.olds.len() ==> tidy_tail(#[trigger] s.olds[i])
}

/// Whether a source has `id` for `key`.
pub open spec fn holds(s: Sources, key: u32, id: u32) -> bool {
    ||| exists|i: int| 0 <= i < s.runs.len() && (#[trigger] s.runs[i]).contains(pair_of(key, id))
    ||| exists|i: int| 0 <= i < s.olds.len() && lists_hold((#[trigger] s.olds[i]).items, key, id)
}

/// Whether a source has a dense list for `key`, with count `df`.
pub open spec fn holds_dense(s: Sources, key: u32, df: u64) -> bool {
    exists|i: int| 0 <= i < s.olds.len() && lists_dense((#[trigger] s.olds[i]).items, key, df)
}

/// Whether a source has anything for `key`.
pub open spec fn has_key(s: Sources, key: u32) -> bool {
    (exists|id: u32| holds(s, key, id)) || (exists|df: u64| holds_dense(s, key, df))
}

proof fn lemma_run_past(run: Seq<u64>, key: u32)
    requires
        rising(run),
        run.len() > 0 ==> key <= key_of(run[0]),
    ensures
        rising(beyond(run, key)),
        forall|k: u32, id: u32| #[trigger]
            beyond(run, key).contains(pair_of(k, id)) <==> run.contains(pair_of(k, id)) && k != key,
{
    lemma_beyond(run, key);
    let out = beyond(run, key);
    let d = run.len() - out.len();
    assert forall|k: u32, id: u32| #[trigger] out.contains(pair_of(k, id)) <==> run.contains(
        pair_of(k, id),
    ) && k != key by {
        law_pair_holds_both(k, id);
        let p = pair_of(k, id);
        if out.contains(p) {
            let i = choose|i: int| 0 <= i < out.len() && out[i] == p;
            assert(run[d + i] == p);
            // Behind the front no pair of the key is left.
            assert(!run_heads(out, key));
            if i > 0 {
                lemma_pair_order(out[0], out[i]);
            }
            assert(key_of(out[0]) > key) by {
                if d > 0 {
                    assert(run[d as int] == out[0]);
                    lemma_pair_order(run[0], out[0]);
                }
            }
        }
        if run.contains(p) && k != key {
            let i = choose|i: int| 0 <= i < run.len() && run[i] == p;
            assert(i >= d);
            assert(out[i - d] == p);
        }
    }
}

proof fn lemma_tail_past(t: Tail, key: u32)
    requires
        tidy_tail(t),
        t.items.len() > 0 ==> key <= t.items[0].0,
    ensures
        tidy_tail(past_old(t, key)),
        forall|k: u32, id: u32| #[trigger]
            lists_hold(past_old(t, key).items, k, id) <==> lists_hold(t.items, k, id) && k != key,
        forall|k: u32, df: u64| #[trigger]
            lists_dense(past_old(t, key).items, k, df) <==> lists_dense(t.items, k, df) && k != key,
        forall|id: u32| #[trigger] old_has(t, key, id) <==> lists_hold(t.items, key, id),
        forall|df: u64| #[trigger]
            lists_dense(t.items, key, df) <==> old_heads(t, key) && t.items[0].1 == Listing::Dense(df),
{
    let out = past_old(t, key);
    let d: int = if old_heads(t, key) {
        1
    } else {
        0
    };
    assert forall|j: int| 0 <= j < t.items.len() && (#[trigger] t.items[j]).0 == key implies j == 0
        && old_heads(t, key) by {
        if j > 0 {
            assert(t.items[0].0 < t.items[j].0);
        }
    }
    assert(forall|j: int| 0 <= j < out.items.len() ==> #[trigger] out.items[j] == t.items[j + d]);
    assert forall|k: u32, id: u32| #[trigger] lists_hold(out.items, k, id) <==> lists_hold(
        t.items,
        k,
        id,
    ) && k != key by {
        if lists_hold(out.items, k, id) {
            let j = choose|j: int|
                0 <= j < out.items.len() && item_holds(#[trigger] out.items[j], k, id);
            assert(item_holds(t.items[j + d], k, id));
        }
        if lists_hold(t.items, k, id) && k != key {
            let j = choose|j: int| 0 <= j < t.items.len() && item_holds(#[trigger] t.items[j], k, id);
            assert(j >= d);
            assert(item_holds(out.items[j - d], k, id));
        }
    }
    assert forall|k: u32, df: u64| #[trigger] lists_dense(out.items, k, df) <==> lists_dense(
        t.items,
        k,
        df,
    ) && k != key by {
        if lists_dense(out.items, k, df) {
            let j = choose|j: int|
                0 <= j < out.items.len() && #[trigger] out.items[j] == (k, Listing::Dense(df));
            assert(t.items[j + d] == (k, Listing::Dense(df)));
        }
        if lists_dense(t.items, k, df) && k != key {
            let j = choose|j: int|
                0 <= j < t.items.len() && #[trigger] t.items[j] == (k, Listing::Dense(df));
            assert(j >= d);
            assert(out.items[j - d] == (k, Listing::Dense(df)));
        }
    }
    assert forall|id: u32| #[trigger] old_has(t, key, id) <==> lists_hold(t.items, key, id) by {
        if old_has(t, key, id) {
            assert(item_holds(t.items[0], key, id));
        }
        if lists_hold(t.items, key, id) {
            let j = choose|j: int|
                0 <= j < t.items.len() && item_holds(#[trigger] t.items[j], key, id);
            assert(t.items[j].0 == key);
        }
    }
    assert forall|df: u64| #[trigger] lists_dense(t.items, key, df) <==> old_heads(t, key)
        && t.items[0].1 == Listing::Dense(df) by {
        if lists_dense(t.items, key, df) {
            let j = choose|j: int|
                0 <= j < t.items.len() && #[trigger] t.items[j] == (key, Listing::Dense(df));
            assert(t.items[j].0 == key);
        }
        if old_heads(t, key) && t.items[0].1 == Listing::Dense(df) {
            assert(t.items[0] == (key, Listing::Dense(df)));
        }
    }
}

/// What comes next is there.
proof fn lemma_head_is_held(s: Sources, key: u32)
    requires
        tidy(s),
        heads(s, key),
    ensures
        has_key(s, key),
{
    if runs_head(s.runs, s.runs.len() as int, key) {
        let i = choose|i: int| 0 <= i < s.runs.len() && run_heads(#[trigger] s.runs[i], key);
        let p = s.runs[i][0];
        lemma_pair_parts(p);
        assert(s.runs[i].contains(p));
        assert(holds(s, key, id_of(p)));
    } else {
        let i = choose|i: int| 0 <= i < s.olds.len() && old_heads(#[trigger] s.olds[i], key);
        let t = s.olds[i];
        assert(tidy_tail(t));
        match t.items[0].1 {
            Listing::Ids(ids) => {
                assert(ids.contains(ids[0]));
                assert(item_holds(t.items[0], key, ids[0]));
                assert(lists_hold(t.items, key, ids[0]));
                assert(holds(s, key, ids[0]));
            },
            Listing::Dense(df) => {
                assert(t.items[0] == (key, Listing::Dense(df)));
                assert(lists_dense(t.items, key, df));
                assert(holds_dense(s, key, df));
            },
        }
    }
}

/// What is there is not less than what comes next.
proof fn lemma_held_has_head(s: Sources, key: u32)
    requires
        tidy(s),
        has_key(s, key),
    ensures
        exists|k: u32| #[trigger] heads(s, k) && k <= key,
{
    if exists|id: u32| holds(s, key, id) {
        let id = choose|id: u32| holds(s, key, id);
        if exists|i: int|
            0 <= i < s.runs.len() && (#[trigger] s.runs[i]).contains(pair_of(key, id)) {
            let i = choose|i: int|
                0 <= i < s.runs.len() && (#[trigger] s.runs[i]).contains(pair_of(key, id));
            let run = s.runs[i];
            let j = choose|j: int| 0 <= j < run.len() && run[j] == pair_of(key, id);
            law_pair_holds_both(key, id);
            if j > 0 {
                lemma_pair_order(run[0], run[j]);
            }
            assert(run_heads(run, key_of(run[0])));
            assert(runs_head(s.runs, s.runs.len() as int, key_of(run[0])));
            assert(heads(s, key_of(run[0])));
        } else {
            let i = choose|i: int|
                0 <= i < s.olds.len() && lists_hold((#[trigger] s.olds[i]).items, key, id);
            let t = s.olds[i];
            assert(tidy_tail(t));
            let j = choose|j: int|
                0 <= j < t.items.len() && item_holds(#[trigger] t.items[j], key, id);
            lemma_item_has_head(s, i, j);
        }
    } else {
        let df = choose|df: u64| holds_dense(s, key, df);
        let i = choose|i: int|
            0 <= i < s.olds.len() && lists_dense((#[trigger] s.olds[i]).items, key, df);
        let t = s.olds[i];
        assert(tidy_tail(t));
        let j = choose|j: int|
            0 <= j < t.items.len() && #[trigger] t.items[j] == (key, Listing::Dense(df));
        lemma_item_has_head(s, i, j);
    }
}

proof fn lemma_item_has_head(s: Sources, i: int, j: int)
    requires
        0 <= i < s.olds.len(),
        tidy_tail(s.olds[i]),
        0 <= j < s.olds[i].items.len(),
    ensures
        exists|k: u32| #[trigger] heads(s, k) && k <= s.olds[i].items[j].0,
{
    let t = s.olds[i];
    let k = t.items[0].0;
    if j > 0 {
        assert(t.items[0].0 < t.items[j].0);
    }
    assert(old_heads(t, k));
    assert(olds_head(s.olds, s.olds.len() as int, k));
    assert(heads(s, k));
}

/// Whether `key` is the least one that a source has.
pub open spec fn least_held(s: Sources, key: u32) -> bool {
    has_key(s, key) && forall|k: u32| #[trigger] has_key(s, k) ==> key <= k
}

proof fn lemma_least_held(s: Sources, key: u32)
    requires
        tidy(s),
        least(s, key),
    ensures
        least_held(s, key),
{
    lemma_head_is_held(s, key);
    assert forall|k: u32| #[trigger] has_key(s, k) implies key <= k by {
        lemma_held_has_head(s, k);
        let m = choose|m: u32| #[trigger] heads(s, m) && m <= k;
    }
}

proof fn lemma_least_is_below(s: Sources, key: u32)
    requires
        least(s, key),
    ensures
        forall|i: int|
            0 <= i < s.runs.len() && s.runs[i].len() > 0 ==> key <= key_of(#[trigger] s.runs[i][0]),
        forall|i: int|
            0 <= i < s.olds.len() && (#[trigger] s.olds[i]).items.len() > 0 ==> key
                <= s.olds[i].items[0].0,
{
    assert forall|i: int| 0 <= i < s.runs.len() && s.runs[i].len() > 0 implies key <= key_of(
        #[trigger] s.runs[i][0],
    ) by {
        let k = key_of(s.runs[i][0]);
        assert(run_heads(s.runs[i], k));
        assert(heads(s, k));
    }
    assert forall|i: int|
        0 <= i < s.olds.len() && (#[trigger] s.olds[i]).items.len() > 0 implies key
        <= s.olds[i].items[0].0 by {
        let k = s.olds[i].items[0].0;
        assert(old_heads(s.olds[i], k));
        assert(heads(s, k));
    }
}

/// Going past the least key takes exactly what there is of it.
proof fn lemma_past(s: Sources, key: u32)
    requires
        tidy(s),
        least(s, key),
    ensures
        tidy(past(s, key)),
        forall|k: u32, id: u32| #[trigger]
            holds(past(s, key), k, id) <==> holds(s, k, id) && k != key,
        forall|k: u32, df: u64| #[trigger]
            holds_dense(past(s, key), k, df) <==> holds_dense(s, k, df) && k != key,
{
    let out = past(s, key);
    lemma_least_is_below(s, key);
    assert forall|i: int| 0 <= i < out.runs.len() implies rising(#[trigger] out.runs[i]) by {
        assert(rising(s.runs[i]));
        lemma_run_past(s.runs[i], key);
    }
    assert forall|i: int| 0 <= i < out.olds.len() implies tidy_tail(#[trigger] out.olds[i]) by {
        assert(tidy_tail(s.olds[i]));
        lemma_tail_past(s.olds[i], key);
    }
    assert forall|k: u32, id: u32| #[trigger] holds(out, k, id) <==> holds(s, k, id) && k
        != key by {
        if holds(out, k, id) {
            if exists|i: int|
                0 <= i < out.runs.len() && (#[trigger] out.runs[i]).contains(pair_of(k, id)) {
                let i = choose|i: int|
                    0 <= i < out.runs.len() && (#[trigger] out.runs[i]).contains(pair_of(k, id));
                assert(rising(s.runs[i]));
                lemma_run_past(s.runs[i], key);
                assert(beyond(s.runs[i], key).contains(pair_of(k, id)));
                assert(s.runs[i].contains(pair_of(k, id)));
            } else {
                let i = choose|i: int|
                    0 <= i < out.olds.len() && lists_hold((#[trigger] out.olds[i]).items, k, id);
                assert(tidy_tail(s.olds[i]));
                lemma_tail_past(s.olds[i], key);
                assert(lists_hold(s.olds[i].items, k, id));
            }
        }
        if holds(s, k, id) && k != key {
            if exists|i: int|
                0 <= i < s.runs.len() && (#[trigger] s.runs[i]).contains(pair_of(k, id)) {
                let i = choose|i: int|
                    0 <= i < s.runs.len() && (#[trigger] s.runs[i]).contains(pair_of(k, id));
                assert(rising(s.runs[i]));
                lemma_run_past(s.runs[i], key);
                assert(beyond(s.runs[i], key).contains(pair_of(k, id)));
                assert(out.runs[i].contains(pair_of(k, id)));
            } else {
                let i = choose|i: int|
                    0 <= i < s.olds.len() && lists_hold((#[trigger] s.olds[i]).items, k, id);
                assert(tidy_tail(s.olds[i]));
                lemma_tail_past(s.olds[i], key);
                assert(lists_hold(out.olds[i].items, k, id));
            }
        }
    }
    assert forall|k: u32, df: u64| #[trigger] holds_dense(out, k, df) <==> holds_dense(s, k, df)
        && k != key by {
        if holds_dense(out, k, df) {
            let i = choose|i: int|
                0 <= i < out.olds.len() && lists_dense((#[trigger] out.olds[i]).items, k, df);
            assert(tidy_tail(s.olds[i]));
            lemma_tail_past(s.olds[i], key);
            assert(lists_dense(s.olds[i].items, k, df));
        }
        if holds_dense(s, k, df) && k != key {
            let i = choose|i: int|
                0 <= i < s.olds.len() && lists_dense((#[trigger] s.olds[i]).items, k, df);
            assert(tidy_tail(s.olds[i]));
            lemma_tail_past(s.olds[i], key);
            assert(lists_dense(out.olds[i].items, k, df));
        }
    }
}

proof fn lemma_no_fault(olds: Seq<Tail>, key: u32, n: int)
    requires
        0 <= n <= olds.len(),
        forall|i: int| 0 <= i < olds.len() ==> tidy_tail(#[trigger] olds[i]),
    ensures
        fault_behind(olds, key, n) is None,
    decreases n,
{
    if n > 0 {
        lemma_no_fault(olds, key, n - 1);
        assert(tidy_tail(olds[n - 1]));
    }
}

/// The dense count is the greatest one.
proof fn lemma_dense_count(s: Sources, key: u32, n: int)
    requires
        tidy(s),
        least(s, key),
        0 <= n <= s.olds.len(),
    ensures
        match dense_count(s.olds, key, n) {
            Some(d) => holds_dense(s, key, d) && forall|i: int, df: u64|
                0 <= i < n && #[trigger] lists_dense(s.olds[i].items, key, df) ==> df <= d,
            None => forall|i: int, df: u64|
                0 <= i < n ==> !#[trigger] lists_dense(s.olds[i].items, key, df),
        },
    decreases n,
{
    if n > 0 {
        lemma_dense_count(s, key, n - 1);
        let t = s.olds[n - 1];
        assert(tidy_tail(t));
        lemma_least_is_below(s, key);
        lemma_tail_past(t, key);
        if old_heads(t, key) && t.items[0].1 is Dense {
            let df = t.items[0].1->Dense_0;
            assert(lists_dense(t.items, key, df));
            assert(holds_dense(s, key, df));
        }
    }
}

/// A list of the merge is that of its key.
pub open spec fn list_is_right(s: Sources, item: (u32, Listing)) -> bool {
    match item.1 {
        Listing::Ids(q) => {
            &&& ascending(q)
            &&& q.len() > 0
            &&& forall|id: u32| #[trigger] q.contains(id) <==> holds(s, item.0, id)
            &&& forall|df: u64| !#[trigger] holds_dense(s, item.0, df)
        },
        Listing::Dense(d) => {
            &&& holds_dense(s, item.0, d)
            &&& forall|df: u64| #[trigger] holds_dense(s, item.0, df) ==> df <= d
        },
    }
}

proof fn lemma_list_for(s: Sources, key: u32)
    requires
        tidy(s),
        least(s, key),
    ensures
        list_is_right(s, (key, list_for(s, key))),
{
    let n = s.olds.len() as int;
    lemma_dense_count(s, key, n);
    lemma_least_held(s, key);
    assert forall|df: u64| #[trigger] holds_dense(s, key, df) implies exists|i: int|
        0 <= i < n && lists_dense((#[trigger] s.olds[i]).items, key, df) by {}
    let set = run_ids(s.runs, key, s.runs.len() as int).union(old_ids(s.olds, key, n));
    assert forall|id: u32| #[trigger] set.contains(id) <==> holds(s, key, id) by {
        lemma_least_is_below(s, key);
        if old_ids(s.olds, key, n).contains(id) {
            let i = choose|i: int| 0 <= i < n && old_has(#[trigger] s.olds[i], key, id);
            assert(tidy_tail(s.olds[i]));
            lemma_tail_past(s.olds[i], key);
            assert(lists_hold(s.olds[i].items, key, id));
        }
        if holds(s, key, id) && !run_ids(s.runs, key, s.runs.len() as int).contains(id) {
            let i = choose|i: int|
                0 <= i < s.olds.len() && lists_hold((#[trigger] s.olds[i]).items, key, id);
            assert(tidy_tail(s.olds[i]));
            lemma_tail_past(s.olds[i], key);
            assert(old_has(s.olds[i], key, id));
        }
    }
    lemma_ascending_exists(set);
    let q = ascending_of(set);
    assert forall|id: u32| #[trigger] q.contains(id) <==> holds(s, key, id) by {
        assert(q.to_set().contains(id) <==> set.contains(id));
    }
    if dense_count(s.olds, key, n) is None {
        assert(exists|id: u32| holds(s, key, id));
        let id = choose|id: u32| holds(s, key, id);
        assert(q.contains(id));
    }
}

/// A merge has exactly what its sources have: a list for each of their keys,
/// keys ascending, with all the ids that any of them has for the key.
pub proof fn law_merge_is_exact(s: Sources)
    requires
        tidy(s),
    ensures
        merged(s).end is None,
        keys_ascending(merged(s).items),
        forall|j: int|
            0 <= j < merged(s).items.len() ==> list_is_right(s, #[trigger] merged(s).items[j]),
        forall|key: u32| #[trigger]
            has_key(s, key) ==> exists|j: int|
                0 <= j < merged(s).items.len() && (#[trigger] merged(s).items[j]).0 == key,
    decreases weight(s),
{
    let items = merged(s).items;
    if exists|k: u32| heads(s, k) {
        let key = next_key(s);
        lemma_least_exists(s, choose|k: u32| heads(s, k));
        lemma_past_lighter(s, key);
        lemma_no_fault(s.olds, key, s.olds.len() as int);
        lemma_past(s, key);
        lemma_list_for(s, key);
        lemma_least_held(s, key);
        let out = past(s, key);
        law_merge_is_exact(out);
        let rest = merged(out).items;
        assert(items =~= seq![(key, list_for(s, key))] + rest);
        assert forall|j: int| 0 <= j < items.len() implies list_is_right(s, #[trigger] items[j]) && (
        j > 0 ==> items[j].0 > key) by {
            if j > 0 {
                let item = rest[j - 1];
                assert(items[j] == item);
                assert(list_is_right(out, item));
                assert(has_key(out, item.0)) by {
                    lemma_right_has_key(out, item);
                }
                lemma_key_stays(s, out, key, item.0);
                match item.1 {
                    Listing::Ids(q) => {
                        assert forall|id: u32| #[trigger] q.contains(id) <==> holds(
                            s,
                            item.0,
                            id,
                        ) by {
                            assert(holds(out, item.0, id) <==> holds(s, item.0, id) && item.0
                                != key);
                        }
                        assert forall|df: u64| !#[trigger] holds_dense(s, item.0, df) by {
                            assert(!holds_dense(out, item.0, df));
                        }
                    },
                    Listing::Dense(d) => {
                        assert(holds_dense(out, item.0, d));
                        assert forall|df: u64| #[trigger] holds_dense(
                            s,
                            item.0,
                            df,
                        ) implies df <= d by {
                            assert(holds_dense(out, item.0, df));
                        }
                    },
                }
            }
        }
        assert forall|i: int, j: int| 0 <= i < j < items.len() implies items[i].0 < items[j].0 by {
            if i > 0 {
                assert(items[i] == rest[i - 1] && items[j] == rest[j - 1]);
            } else {
                assert(list_is_right(s, items[j]));
            }
        }
        assert forall|k: u32| #[trigger] has_key(s, k) implies exists|j: int|
            0 <= j < items.len() && (#[trigger] items[j]).0 == k by {
            if k == key {
                assert(items[0].0 == k);
            } else {
                lemma_key_stays(s, out, key, k);
                assert(has_key(out, k));
                let j = choose|j: int| 0 <= j < rest.len() && (#[trigger] rest[j]).0 == k;
                assert(items[j + 1].0 == k);
            }
        }
    } else {
        assert forall|k: u32| #[trigger] has_key(s, k) implies false by {
            lemma_held_has_head(s, k);
        }
    }
}

proof fn lemma_right_has_key(s: Sources, item: (u32, Listing))
    requires
        list_is_right(s, item),
    ensures
        has_key(s, item.0),
{
    match item.1 {
        Listing::Ids(q) => {
            assert(q.contains(q[0]));
            assert(holds(s, item.0, q[0]));
        },
        Listing::Dense(d) => {
            assert(holds_dense(s, item.0, d));
        },
    }
}

proof fn lemma_key_stays(s: Sources, out: Sources, key: u32, k: u32)
    requires
        least_held(s, key),
        forall|k: u32, id: u32| #[trigger] holds(out, k, id) <==> holds(s, k, id) && k != key,
        forall|k: u32, df: u64| #[trigger]
            holds_dense(out, k, df) <==> holds_dense(s, k, df) && k != key,
    ensures
        has_key(out, k) <==> has_key(s, k) && k != key,
        has_key(out, k) ==> key < k,
{
    if has_key(out, k) {
        if exists|id: u32| holds(out, k, id) {
            let id = choose|id: u32| holds(out, k, id);
            assert(holds(s, k, id));
        } else {
            let df = choose|df: u64| holds_dense(out, k, df);
            assert(holds_dense(s, k, df));
        }
        assert(has_key(s, k));
    }
    if has_key(s, k) && k != key {
        if exists|id: u32| holds(s, k, id) {
            let id = choose|id: u32| holds(s, k, id);
            assert(holds(out, k, id));
        } else {
            let df = choose|df: u64| holds_dense(s, k, df);
            assert(holds_dense(out, k, df));
        }
    }
}

/// Whether two groups of sources have the same contents.
pub open spec fn same_contents(s1: Sources, s2: Sources) -> bool {
    &&& forall|key: u32, id: u32|
        #![trigger holds(s1, key, id)]
        #![trigger holds(s2, key, id)]
        holds(s1, key, id) <==> holds(s2, key, id)
    &&& forall|key: u32, df: u64|
        #![trigger holds_dense(s1, key, df)]
        #![trigger holds_dense(s2, key, df)]
        holds_dense(s1, key, df) <==> holds_dense(s2, key, df)
}

proof fn lemma_same_key(s1: Sources, s2: Sources, k: u32)
    requires
        has_key(s1, k),
        same_contents(s1, s2),
    ensures
        has_key(s2, k),
{
    if exists|id: u32| holds(s1, k, id) {
        let id = choose|id: u32| holds(s1, k, id);
        assert(holds(s2, k, id));
    } else {
        let df = choose|df: u64| holds_dense(s1, k, df);
        assert(holds_dense(s2, k, df));
    }
}

proof fn lemma_same_item(s1: Sources, s2: Sources, i: int)
    requires
        tidy(s1),
        tidy(s2),
        same_contents(s1, s2),
        0 <= i < merged(s1).items.len(),
    ensures
        merged(s2).items.contains(merged(s1).items[i]),
{
    let x = merged(s1).items[i];
    let b = merged(s2).items;
    law_merge_is_exact(s1);
    law_merge_is_exact(s2);
    assert(list_is_right(s1, x));
    lemma_right_has_key(s1, x);
    lemma_same_key(s1, s2, x.0);
    let j = choose|j: int| 0 <= j < b.len() && (#[trigger] b[j]).0 == x.0;
    let y = b[j];
    assert(list_is_right(s2, y));
    match (x.1, y.1) {
        (Listing::Ids(p), Listing::Ids(q)) => {
            assert forall|id: u32| p.contains(id) <==> q.contains(id) by {
                assert(holds(s1, x.0, id) <==> holds(s2, x.0, id));
            }
            lemma_ascending_same(p, q);
        },
        (Listing::Dense(d), Listing::Dense(e)) => {
            assert(holds_dense(s2, x.0, d));
            assert(holds_dense(s1, x.0, e));
        },
        (Listing::Ids(_), Listing::Dense(e)) => {
            assert(holds_dense(s1, x.0, e));
        },
        (Listing::Dense(d), Listing::Ids(_)) => {
            assert(holds_dense(s2, x.0, d));
        },
    }
    assert(x == y);
}

pub proof fn lemma_rising_same(a: Seq<(u32, Listing)>, b: Seq<(u32, Listing)>)
    requires
        keys_ascending(a),
        keys_ascending(b),
        forall|i: int| 0 <= i < a.len() ==> b.contains(#[trigger] a[i]),
        forall|i: int| 0 <= i < b.len() ==> a.contains(#[trigger] b[i]),
    ensures
        a == b,
    decreases a.len(),
{
    if a.len() == 0 {
        if b.len() > 0 {
            assert(a.contains(b[0]));
        }
        assert(a =~= b);
    } else {
        let n = a.len() - 1;
        assert(b.contains(a[n]));
        let m = b.len() - 1;
        assert(a.contains(b[m]));
        let j = choose|j: int| 0 <= j < b.len() && b[j] == a[n];
        let i = choose|i: int| 0 <= i < a.len() && a[i] == b[m];
        assert(i == n) by {
            if i < n {
                assert(a[i].0 < a[n].0);
                if j < m {
                    assert(b[j].0 < b[m].0);
                }
            }
        }
        let (a1, b1) = (a.drop_last(), b.drop_last());
        assert forall|k: int| 0 <= k < a1.len() implies b1.contains(#[trigger] a1[k]) by {
            assert(a1[k] == a[k] && a[k].0 < a[n].0);
            assert(b.contains(a[k]));
            let w = choose|w: int| 0 <= w < b.len() && b[w] == a[k];
            assert(b1[w] == a[k]);
        }
        assert forall|k: int| 0 <= k < b1.len() implies a1.contains(#[trigger] b1[k]) by {
            assert(b1[k] == b[k] && b[k].0 < b[m].0);
            assert(a.contains(b[k]));
            let w = choose|w: int| 0 <= w < a.len() && a[w] == b[k];
            assert(a1[w] == b[k]);
        }
        lemma_rising_same(a1, b1);
        assert(a =~= a1.push(a[n]));
        assert(b =~= b1.push(b[m]));
    }
}

/// A merge depends only on what its sources have together, not on how it is
/// spread over them: spilling runs, or taking lists from an existing index
/// in place of reading the files again, leaves it the same.
pub proof fn law_merge_depends_on_contents(s1: Sources, s2: Sources)
    requires
        tidy(s1),
        tidy(s2),
        same_contents(s1, s2),
    ensures
        merged(s1) == merged(s2),
{
    let a = merged(s1).items;
    let b = merged(s2).items;
    law_merge_is_exact(s1);
    law_merge_is_exact(s2);
    assert forall|i: int| 0 <= i < a.len() implies b.contains(#[trigger] a[i]) by {
        lemma_same_item(s1, s2, i);
    }
    assert forall|i: int| 0 <= i < b.len() implies a.contains(#[trigger] b[i]) by {
        lemma_same_item(s2, s1, i);
    }
    lemma_rising_same(a, b);
}

} // verus!
