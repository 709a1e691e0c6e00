//! Evaluating a trigram query into candidate files.

use crate::ids::{intersect, lemma_push_contains, sorted, union};
use crate::index::format::IndexError;
use crate::index::image::{
    keys_of, layout_of, list_at, list_of, probe, Fault, Layout,
};
use crate::index::postings::{
    lemma_group_len, lemma_set_ids, read_list, set_ids, varint_ids, Encoding, Listing,
};
use crate::plan::{formulas, Formula, Query};
use crate::search::view::{base_count, is_dead, live, overlay_count, view_list, Files, IdSet, View};
use crate::trigram::ascending;
use crate::varint::leb128_head;
use vstd::prelude::*;
use vstd::view::View as _;

verus! {

/// What a query evaluates to: None for every alive file, else the candidate
/// ids, or the fault of the first list that cannot be read. A dense trigram
/// is a constraint that constrains nothing, so in an AND it drops out and in
/// an OR it absorbs the whole branch.
pub open spec fn evaluated(v: Files, f: Formula) -> Result<Option<Set<u32>>, Fault>
    decreases f,
{
    match f {
        Formula::Nothing => Ok(Some(Set::empty())),
        Formula::All => Ok(None),
        Formula::Tri(t) => match view_list(v, t) {
            Ok(Some(ids)) => Ok(Some(ids.to_set())),
            Ok(None) => Ok(None),
            Err(e) => Err(e),
        },
        Formula::And(subs) => evaluated_and(v, subs),
        Formula::Or(subs) => evaluated_or(v, subs),
    }
}

pub open spec fn evaluated_and(v: Files, subs: Seq<Formula>) -> Result<Option<Set<u32>>, Fault>
    decreases subs,
{
    if subs.len() == 0 {
        Ok(None)
    } else {
        match (evaluated_and(v, subs.drop_last()), evaluated(v, subs.last())) {
            (Err(e), _) => Err(e),
            (_, Err(e)) => Err(e),
            (Ok(None), Ok(x)) => Ok(x),
            (Ok(x), Ok(None)) => Ok(x),
            (Ok(Some(a)), Ok(Some(b))) => Ok(Some(a.intersect(b))),
        }
    }
}

pub open spec fn evaluated_or(v: Files, subs: Seq<Formula>) -> Result<Option<Set<u32>>, Fault>
    decreases subs,
{
    if subs.len() == 0 {
        Ok(Some(Set::empty()))
    } else {
        match evaluated_or(v, subs.drop_last()) {
            Err(e) => Err(e),
            // X or ALL = ALL, whatever comes behind.
            Ok(None) => Ok(None),
            Ok(Some(a)) => match evaluated(v, subs.last()) {
                Err(e) => Err(e),
                Ok(None) => Ok(None),
                Ok(Some(b)) => Ok(Some(a.union(b))),
            },
        }
    }
}

/// Whether every list of the view is strictly ascending, as written ones are.
pub open spec fn lists_ascend(v: Files) -> bool {
    forall|t: u32| (#[trigger] view_list(v, t)) matches Ok(Some(ids)) ==> ascending(ids)
}

/// The candidates that an id set stands for.
pub open spec fn meaning(s: IdSet) -> Option<Set<u32>> {
    match s {
        IdSet::All => None,
        IdSet::Ids(ids) => Some(ids@.to_set()),
    }
}

proof fn lemma_varint_ids(bytes: Seq<u8>, prev: Option<nat>, n: nat)
    ensures
        varint_ids(bytes, prev, n) matches Ok(ids) ==> sorted(ids) && (forall|i: int|
            0 <= i < ids.len() ==> (#[trigger] ids[i]) < n && (prev matches Some(p) ==> ids[i]
                >= p)),
    decreases bytes.len(),
{
    if bytes.len() > 0 {
        lemma_group_len(bytes);
        match leb128_head(bytes) {
            Some((d, k)) => {
                let id = match prev {
                    Some(p) => p + d as nat,
                    None => d as nat,
                };
                lemma_varint_ids(bytes.skip(k as int), Some(id), n);
            },
            None => {},
        }
    }
}

/// Sorted ids below `n`, or a dense list.
pub open spec fn tidy(list: Listing, n: nat) -> bool {
    list matches Listing::Ids(ids) ==> sorted(ids) && forall|i: int|
        0 <= i < ids.len() ==> #[trigger] ids[i] < n
}

proof fn lemma_read_list(encoding: Encoding, bytes: Seq<u8>, count: u64, n: nat)
    requires
        n <= u32::MAX,
    ensures
        read_list(encoding, bytes, count, n) matches Ok(list) ==> tidy(list, n),
{
    lemma_varint_ids(bytes, None, n);
    lemma_set_ids(bytes, n);
    let set = set_ids(bytes, n);
    assert forall|i: int| 0 <= i < set.len() implies #[trigger] set[i] < n by {
        assert(set.contains(set[i]));
    }
}

proof fn lemma_list_at_tidy(b: Seq<u8>, l: Layout, i: int)
    requires
        l.file_count <= u32::MAX,
    ensures
        list_at(b, l, i) matches Ok(list) ==> tidy(list, l.file_count),
{
    assert forall|e: Encoding, bytes: Seq<u8>, count: u64| (#[trigger] read_list(
        e,
        bytes,
        count,
        l.file_count,
    )) is Ok implies tidy(read_list(e, bytes, count, l.file_count)->Ok_0, l.file_count) by {
        lemma_read_list(e, bytes, count, l.file_count);
    }
}

/// The ids that an index gives for a trigram are sorted and in range.
pub proof fn lemma_list_tidy(b: Seq<u8>, t: u32)
    requires
        layout_of(b).file_count <= u32::MAX,
    ensures
        list_of(b, layout_of(b), t) matches Ok(list) ==> tidy(list, layout_of(b).file_count),
{
    let l = layout_of(b);
    match probe(keys_of(b, l), t, 0, l.tri_count as int) {
        Some(i) => {
            lemma_list_at_tidy(b, l, i);
        },
        None => {},
    }
}

/// What is live of sorted ids is sorted, and each is one of them.
pub proof fn lemma_live(v: Files, list: Seq<u32>)
    ensures
        forall|x: u32| #[trigger]
            live(v, list).contains(x) <==> list.contains(x) && !(x < base_count(v) && is_dead(v, x)),
        sorted(list) ==> sorted(live(v, list)),
        ascending(list) ==> ascending(live(v, list)),
    decreases list.len(),
{
    if list.len() > 0 {
        let front = list.drop_last();
        lemma_live(v, front);
        let all = live(v, list);
        let some = live(v, front);
        assert forall|x: u32| #[trigger] all.contains(x) <==> list.contains(x) && !(x < base_count(v)
            && is_dead(v, x)) by {
            assert(list =~= front.push(list.last()));
            assert(some.contains(x) <==> front.contains(x) && !(x < base_count(v) && is_dead(v, x)));
            lemma_push_contains(front, list.last(), x);
            lemma_push_contains(some, list.last(), x);
        }
        assert forall|i: int| 0 <= i < some.len() implies front.contains(#[trigger] some[i]) by {
            assert(some.contains(some[i]));
        }
        if sorted(list) {
            assert forall|i: int| 0 <= i < some.len() implies some[i] <= list.last() by {
                assert(front.contains(some[i]));
                let k = choose|k: int| 0 <= k < front.len() && front[k] == some[i];
                assert(list[k] <= list[list.len() - 1]);
            }
        }
        if ascending(list) {
            assert forall|i: int| 0 <= i < some.len() implies some[i] < list.last() by {
                assert(front.contains(some[i]));
                let k = choose|k: int| 0 <= k < front.len() && front[k] == some[i];
                assert(list[k] < list[list.len() - 1]);
            }
        }
    }
}

proof fn lemma_view_list_sorted(v: Files, t: u32)
    requires
        base_count(v) + overlay_count(v) <= u32::MAX,
    ensures
        view_list(v, t) matches Ok(Some(ids)) ==> sorted(ids),
{
    lemma_list_tidy(v.base, t);
    match v.overlay {
        Some(o) => {
            lemma_list_tidy(o, t);
        },
        None => {},
    }
    match list_of(v.base, layout_of(v.base), t) {
        Ok(Listing::Ids(ids)) => {
            lemma_live(v, ids);
            let a = live(v, ids);
            assert forall|i: int| 0 <= i < a.len() implies #[trigger] a[i] < base_count(v) by {
                assert(a.contains(a[i]));
            }
        },
        _ => {},
    }
}

fn eval_and(subs: &Vec<Query>, v: &View) -> (r: Result<IdSet, IndexError>)
    ensures
        match r {
            Ok(s) => evaluated_and(v.files(), formulas(subs@)) == Ok::<Option<Set<u32>>, Fault>(
                meaning(s),
            ) && (s matches IdSet::Ids(ids) ==> sorted(ids@) && (lists_ascend(v.files())
                ==> ascending(ids@))),
            Err(e) => evaluated_and(v.files(), formulas(subs@)) == Err::<Option<Set<u32>>, Fault>(
                e.fault(),
            ),
        },
    decreases subs,
{
    let ghost fs = formulas(subs@);
    let mut acc = IdSet::All;
    assert(fs.take(0) =~= Seq::<Formula>::empty());
    for i in 0..subs.len()
        invariant
            fs == formulas(subs@),
            evaluated_and(v.files(), fs.take(i as int)) == Ok::<Option<Set<u32>>, Fault>(
                meaning(acc),
            ),
            acc matches IdSet::Ids(ids) ==> sorted(ids@) && (lists_ascend(v.files()) ==> ascending(
                ids@,
            )),
    {
        assert(decreases_to!(subs => subs@[i as int]));
        assert(fs.take(i as int + 1).drop_last() =~= fs.take(i as int));
        assert(fs[i as int] == subs@[i as int].formula());
        match eval(&subs[i], v) {
            Err(e) => {
                proof {
                    lemma_and_fails(v.files(), fs, i as int + 1, fs.len() as int);
                    assert(fs.take(fs.len() as int) =~= fs);
                }
                return Err(e);
            },
            Ok(IdSet::All) => {},
            Ok(IdSet::Ids(l)) => {
                acc = match acc {
                    IdSet::All => IdSet::Ids(l),
                    IdSet::Ids(a) => IdSet::Ids(intersect(a, l)),
                };
            },
        }
    }
    assert(fs.take(fs.len() as int) =~= fs);
    Ok(acc)
}

proof fn lemma_and_fails(v: Files, fs: Seq<Formula>, k: int, n: int)
    requires
        0 <= k <= n <= fs.len(),
        evaluated_and(v, fs.take(k)) is Err,
    ensures
        evaluated_and(v, fs.take(n)) == evaluated_and(v, fs.take(k)),
    decreases n,
{
    if k < n {
        lemma_and_fails(v, fs, k, n - 1);
        assert(fs.take(n).drop_last() =~= fs.take(n - 1));
    }
}

proof fn lemma_or_settled(v: Files, fs: Seq<Formula>, k: int, n: int)
    requires
        0 <= k <= n <= fs.len(),
        evaluated_or(v, fs.take(k)) is Err || evaluated_or(v, fs.take(k)) == Ok::<
            Option<Set<u32>>,
            Fault,
        >(None),
    ensures
        evaluated_or(v, fs.take(n)) == evaluated_or(v, fs.take(k)),
    decreases n,
{
    if k < n {
        lemma_or_settled(v, fs, k, n - 1);
        assert(fs.take(n).drop_last() =~= fs.take(n - 1));
    }
}

fn eval_or(subs: &Vec<Query>, v: &View) -> (r: Result<IdSet, IndexError>)
    ensures
        match r {
            Ok(s) => evaluated_or(v.files(), formulas(subs@)) == Ok::<Option<Set<u32>>, Fault>(
                meaning(s),
            ) && (s matches IdSet::Ids(ids) ==> sorted(ids@) && (lists_ascend(v.files())
                ==> ascending(ids@))),
            Err(e) => evaluated_or(v.files(), formulas(subs@)) == Err::<Option<Set<u32>>, Fault>(
                e.fault(),
            ),
        },
    decreases subs,
{
    let ghost fs = formulas(subs@);
    let mut acc: Vec<u32> = Vec::new();
    assert(fs.take(0) =~= Seq::<Formula>::empty());
    assert(acc@.to_set() =~= Set::<u32>::empty());
    for i in 0..subs.len()
        invariant
            fs == formulas(subs@),
            evaluated_or(v.files(), fs.take(i as int)) == Ok::<Option<Set<u32>>, Fault>(
                Some(acc@.to_set()),
            ),
            sorted(acc@),
            lists_ascend(v.files()) ==> ascending(acc@),
    {
        assert(decreases_to!(subs => subs@[i as int]));
        assert(fs.take(i as int + 1).drop_last() =~= fs.take(i as int));
        assert(fs[i as int] == subs@[i as int].formula());
        match eval(&subs[i], v) {
            Err(e) => {
                proof {
                    lemma_or_settled(v.files(), fs, i as int + 1, fs.len() as int);
                    assert(fs.take(fs.len() as int) =~= fs);
                }
                return Err(e);
            },
            Ok(IdSet::All) => {
                proof {
                    lemma_or_settled(v.files(), fs, i as int + 1, fs.len() as int);
                    assert(fs.take(fs.len() as int) =~= fs);
                }
                return Ok(IdSet::All);
            },
            Ok(IdSet::Ids(l)) => {
                acc = union(acc, l);
            },
        }
    }
    assert(fs.take(fs.len() as int) =~= fs);
    Ok(IdSet::Ids(acc))
}

/// Evaluate the trigram query into a candidate id set.
pub fn eval(q: &Query, v: &View) -> (r: Result<IdSet, IndexError>)
    ensures
        match r {
            Ok(s) => evaluated(v.files(), q.formula()) == Ok::<Option<Set<u32>>, Fault>(
                meaning(s),
            ) && (s matches IdSet::Ids(ids) ==> sorted(ids@) && (lists_ascend(v.files())
                ==> ascending(ids@))),
            Err(e) => evaluated(v.files(), q.formula()) == Err::<Option<Set<u32>>, Fault>(
                e.fault(),
            ),
        },
    decreases q,
{
    match q {
        Query::Nothing => {
            let none: Vec<u32> = Vec::new();
            assert(none@.to_set() =~= Set::<u32>::empty());
            Ok(IdSet::Ids(none))
        },
        Query::All => Ok(IdSet::All),
        Query::Tri(t) => {
            let r = v.postings(*t);
            proof {
                lemma_view_list_sorted(v.files(), *t);
            }
            r
        },
        Query::And(subs) => eval_and(subs, v),
        Query::Or(subs) => eval_or(subs, v),
    }
}

} // verus!
