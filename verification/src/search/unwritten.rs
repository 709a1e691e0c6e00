//! A build that writes nothing leaves a view that is up to date.

use crate::index::builder::{
    classes, count_of, keeps, mode_of, new_files, over_kept, superseded, Fate, Mode, Prior,
};
use crate::index::candidates::Candidate;
use crate::index::refresh::{distinct_paths, lemma_class_id, prior_tells_truth};
use crate::index::truth::{sound, tells_truth};
use crate::search::agreement::{
    alive_are_found, all_faithful, faithful, found_are_alive, has_file, is_same_file, up_to_date,
    Texts,
};
use crate::search::freshness::{
    lemma_alive, lemma_base_is_faithful, lemma_overlay_is_faithful, lemma_scan_is_alive,
    lemma_superseded,
};
use crate::search::view::{alive_ids, base_count, is_dead, overlay_count, view_file, Files};
use vstd::prelude::*;
use vstd::set_lib::{lemma_int_range, lemma_subset_equality, set_int_range};

verus! {

/// The overlay files that the first `n` candidates are.
pub open spec fn over_ids(cls: Seq<(Fate, u32)>, n: int) -> Set<int>
    decreases n,
{
    if n <= 0 {
        Set::empty()
    } else {
        match cls[n - 1].0 {
            Fate::Over(id) => over_ids(cls, n - 1).insert(id as int),
            _ => over_ids(cls, n - 1),
        }
    }
}

proof fn lemma_over_ids(cls: Seq<(Fate, u32)>, m: nat, n: int)
    requires
        0 <= n <= cls.len(),
        forall|i: int|
            0 <= i < cls.len() ==> ((#[trigger] cls[i]).0 matches Fate::Over(id) ==> id < m),
        forall|i: int, j: int|
            0 <= i < j < cls.len() && (#[trigger] cls[i]).0 is Over ==> cls[i].0 != (
            #[trigger] cls[j]).0,
    ensures
        over_ids(cls, n).finite(),
        over_ids(cls, n).len() == over_kept(cls, n),
        over_ids(cls, n).subset_of(set_int_range(0, m as int)),
        forall|x: int| #[trigger]
            over_ids(cls, n).contains(x) ==> exists|i: int|
                0 <= i < n && (#[trigger] cls[i]).0 == Fate::Over(x as u32),
    decreases n,
{
    if n > 0 {
        lemma_over_ids(cls, m, n - 1);
        let before = over_ids(cls, n - 1);
        if let Fate::Over(id) = cls[n - 1].0 {
            if before.contains(id as int) {
                let i = choose|i: int|
                    0 <= i < n - 1 && (#[trigger] cls[i]).0 == Fate::Over(id as int as u32);
                assert(cls[i].0 != cls[n - 1].0);
            }
            assert(id < m);
        }
        assert forall|x: int| #[trigger] over_ids(cls, n).contains(x) implies exists|i: int|
            0 <= i < n && (#[trigger] cls[i]).0 == Fate::Over(x as u32) by {
            if before.contains(x) {
                let i = choose|i: int|
                    0 <= i < n - 1 && (#[trigger] cls[i]).0 == Fate::Over(x as u32);
                assert(cls[i].0 == Fate::Over(x as u32));
            } else {
                assert(cls[n - 1].0 == Fate::Over(x as u32));
            }
        }
    }
}

/// When as many candidates are overlay files as there are, each of these is a
/// candidate.
proof fn lemma_all_over_kept(p: Prior, found: Seq<Candidate>, max: u64, id: u32) -> (j: int)
    requires
        distinct_paths(found),
        count_of(p.base) <= u32::MAX,
        count_of(p.over) <= u32::MAX,
        over_kept(classes(p, found, max), found.len() as int) == count_of(p.over),
        id < count_of(p.over),
    ensures
        0 <= j < found.len(),
        classes(p, found, max)[j].0 == Fate::Over(id),
{
    let cls = classes(p, found, max);
    let n = found.len() as int;
    let m = count_of(p.over);
    assert forall|i: int| 0 <= i < cls.len() implies ((#[trigger] cls[i]).0 matches Fate::Over(
        id,
    ) ==> id < m) by {
        lemma_class_id(p, found, max, i);
    }
    assert forall|i: int, j: int|
        0 <= i < j < cls.len() && (#[trigger] cls[i]).0 is Over implies cls[i].0 != (
    #[trigger] cls[j]).0 by {
        lemma_class_id(p, found, max, i);
        lemma_class_id(p, found, max, j);
        assert(found[i].rel_path@ != found[j].rel_path@);
    }
    lemma_over_ids(cls, m, n);
    lemma_int_range(0, m as int);
    lemma_subset_equality(over_ids(cls, n), set_int_range(0, m as int));
    assert(over_ids(cls, n).contains(id as int));
    choose|i: int| 0 <= i < n && (#[trigger] cls[i]).0 == Fate::Over(id)
}

proof fn lemma_none_new(cls: Seq<(Fate, u32)>, n: int, j: int)
    requires
        0 <= j < n <= cls.len(),
    ensures
        new_files(cls, n) == 0 ==> !(cls[j].0 is New),
        over_kept(cls, n) == 0 ==> !(cls[j].0 is Over),
    decreases n,
{
    if j < n - 1 {
        lemma_none_new(cls, n - 1, j);
    }
}

/// The index files after a build that writes nothing.
pub open spec fn unwritten_view(p: Prior, mode: Mode) -> Files {
    Files {
        base: p.base->Some_0,
        overlay: if mode == Mode::Unchanged {
            p.over
        } else {
            None
        },
    }
}

/// Whether a build of the given files writes nothing.
#[verifier::opaque]
pub open spec fn writes_nothing(p: Prior, found: Seq<Candidate>, max: u64) -> bool {
    let mode = mode_of(p, classes(p, found, max));
    &&& mode == Mode::Unchanged || mode == Mode::DropOverlay
    &&& distinct_paths(found)
    &&& p.base matches Some(b) && sound(b)
    &&& p.over matches Some(o) ==> sound(o)
    &&& count_of(p.base) + count_of(p.over) <= u32::MAX
}

pub open spec fn view_in(p: Prior, found: Seq<Candidate>, max: u64) -> Files {
    unwritten_view(p, mode_of(p, classes(p, found, max)))
}

proof fn lemma_unwritten_counts(p: Prior, found: Seq<Candidate>, max: u64)
    requires
        writes_nothing(p, found, max),
    ensures
        ({
            let v = view_in(p, found, max);
            let cls = classes(p, found, max);
            &&& p.base == Some(v.base)
            &&& v.overlay is Some ==> v.overlay == p.over
            &&& base_count(v) == count_of(p.base)
            &&& base_count(v) + overlay_count(v) <= u32::MAX
            &&& sound(v.base)
            &&& v.overlay matches Some(o) ==> sound(o)
            &&& new_files(cls, found.len() as int) == 0
            &&& over_kept(cls, found.len() as int) == overlay_count(v)
            &&& v.overlay is None ==> over_kept(cls, found.len() as int) == 0
            &&& v.overlay is Some ==> over_kept(cls, found.len() as int) == count_of(p.over)
            &&& forall|id: u32|
                id < base_count(v) ==> (#[trigger] is_dead(v, id) <==> !keeps(
                    cls,
                    cls.len() as int,
                    id as int,
                ))
        }),
{
    reveal(writes_nothing);
    let v = view_in(p, found, max);
    let cls = classes(p, found, max);
    assert forall|id: u32| id < base_count(v) implies (#[trigger] is_dead(v, id) <==> !keeps(
        cls,
        cls.len() as int,
        id as int,
    )) by {
        lemma_superseded(cls, count_of(p.base), id);
        if v.overlay is None {
            assert(superseded(cls, count_of(p.base)) =~= Seq::<u32>::empty());
        }
    }
}

proof fn lemma_unwritten_alive(
    p: Prior,
    found: Seq<Candidate>,
    max: u64,
    data: spec_fn(Seq<char>) -> Seq<u8>,
    id: u32,
)
    requires
        writes_nothing(p, found, max),
        prior_tells_truth(p, found, max, data),
        alive_ids(view_in(p, found, max)).contains(id),
    ensures
        exists|j: int|
            0 <= j < found.len() && #[trigger] is_same_file(view_in(p, found, max), id, found[j]),
        faithful(
            view_in(p, found, max),
            id,
            data(view_file(view_in(p, found, max), id)->Ok_0.path),
        ),
{
    let v = view_in(p, found, max);
    let cls = classes(p, found, max);
    lemma_unwritten_counts(p, found, max);
    lemma_alive(v, id);
    assert(distinct_paths(found) && count_of(p.base) <= u32::MAX && count_of(p.over) <= u32::MAX)
        by {
        reveal(writes_nothing);
    }
    if id < base_count(v) {
        assert(!is_dead(v, id));
        let j = choose|j: int|
            0 <= j < cls.len() && (#[trigger] cls[j]).0 == Fate::Base(id as int as u32);
        lemma_class_id(p, found, max, j);
        assert(tells_truth(v.base, id as nat, data(found[j].rel_path@)));
        lemma_base_is_faithful(v, id, data(found[j].rel_path@));
        assert(is_same_file(v, id, found[j]));
    } else {
        let k = (id - base_count(v)) as u32;
        let j = lemma_all_over_kept(p, found, max, k);
        lemma_class_id(p, found, max, j);
        assert(tells_truth(p.over->Some_0, k as nat, data(found[j].rel_path@)));
        lemma_overlay_is_faithful(v, k, data(found[j].rel_path@));
        assert(is_same_file(v, id, found[j]));
    }
}

proof fn lemma_unwritten_found(p: Prior, found: Seq<Candidate>, max: u64, j: int)
    requires
        writes_nothing(p, found, max),
        0 <= j < found.len(),
    ensures
        has_file(view_in(p, found, max), found[j]),
{
    let v = view_in(p, found, max);
    let cls = classes(p, found, max);
    lemma_unwritten_counts(p, found, max);
    assert(count_of(p.base) <= u32::MAX && count_of(p.over) <= u32::MAX) by {
        reveal(writes_nothing);
    }
    lemma_class_id(p, found, max, j);
    lemma_none_new(cls, found.len() as int, j);
    match cls[j].0 {
        Fate::Base(id) => {
            assert(keeps(cls, cls.len() as int, id as int));
            assert(!is_dead(v, id));
            lemma_alive(v, id);
            assert(is_same_file(v, id, found[j]));
        },
        Fate::Over(k) => {
            let id = (base_count(v) + k) as u32;
            lemma_alive(v, id);
            assert(is_same_file(v, id, found[j]));
        },
        Fate::New => {},
    }
}

/// When a build writes nothing, the view is of exactly the files found all
/// the same, and tells the truth about each as the index files do.
pub proof fn law_unwritten_view_is_up_to_date(
    p: Prior,
    found: Seq<Candidate>,
    max: u64,
    texts: Texts,
)
    requires
        writes_nothing(p, found, max),
        prior_tells_truth(p, found, max, texts.data),
    ensures
        up_to_date(view_in(p, found, max), found, texts),
{
    let v = view_in(p, found, max);
    assert(alive_are_found(v, found)) by {
        assert forall|id: u32| #[trigger] alive_ids(v).contains(id) implies exists|j: int|
            0 <= j < found.len() && #[trigger] is_same_file(v, id, found[j]) by {
            lemma_unwritten_alive(p, found, max, texts.data, id);
        }
    }
    assert(found_are_alive(v, found)) by {
        assert forall|j: int| 0 <= j < found.len() implies has_file(v, #[trigger] found[j]) by {
            lemma_unwritten_found(p, found, max, j);
        }
    }
    assert(all_faithful(v, texts)) by {
        lemma_unwritten_counts(p, found, max);
        lemma_scan_is_alive(v);
        assert forall|id: u32| #[trigger] alive_ids(v).contains(id) implies faithful(
            v,
            id,
            (texts.data)(view_file(v, id)->Ok_0.path),
        ) by {
            lemma_unwritten_alive(p, found, max, texts.data, id);
        }
    }
}

} // verus!
