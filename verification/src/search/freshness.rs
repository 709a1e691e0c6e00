//! After a build the view is up to date.

use crate::index::builder::{count_of, keeps, lemma_picks, picks, superseded, Fate};
use crate::index::exact::law_merge_is_exact;
use crate::index::image::{file_at, image, layout_of, list_of, Entry, Fault, FLAG_HIDDEN};
use crate::index::postings::{all_ids, Listing};
use crate::index::readback::{
    law_written_file_reads_back, law_written_ids_read_back, law_written_index_opens,
};
use crate::index::refresh::{
    classes_in, is_record, law_build_tells_truth, lemma_class_id, lemma_flag_bits, lemma_new_flags,
    lemma_sources_tidy, picked_in, sources_in, texts_as_read, well_built, Building,
};
use crate::index::truth::{law_written_index_is_sound, lists_file, sound, tells_truth};
use crate::search::agreement::{
    alive_are_found, all_faithful, faithful, found_are_alive, has_file, is_same_file, lemma_concat_has,
    up_to_date, Texts,
};
use crate::search::eval::lemma_live;
use crate::search::view::{
    alive_ids, alive_scan_always, base_count, is_dead, listed_scan_always,
    listed_tombstones, live, overlay_count, shifted, view_file, view_list, Files,
};
use crate::trigram::trigrams;
use vstd::prelude::*;

verus! {

proof fn lemma_shifted_has(list: Seq<u32>, by: nat, id: u32)
    requires
        list.contains(id),
        id + by <= u32::MAX,
    ensures
        shifted(list, by).contains((id + by) as u32),
{
    let i = choose|i: int| 0 <= i < list.len() && list[i] == id;
    assert(shifted(list, by)[i] == (id + by) as u32);
}

/// The alive files: those of the base that are not superseded, and those of
/// the overlay.
pub proof fn lemma_alive(v: Files, id: u32)
    requires
        base_count(v) + overlay_count(v) <= u32::MAX,
    ensures
        alive_ids(v).contains(id) <==> (id < base_count(v) && !is_dead(v, id)) || (base_count(v)
            <= id < base_count(v) + overlay_count(v)),
{
    let n = base_count(v);
    let m = overlay_count(v);
    let front = live(v, all_ids(n));
    let back = shifted(all_ids(m), n);
    lemma_live(v, all_ids(n));
    lemma_concat_has(front, back, id);
    if id < n {
        assert(all_ids(n)[id as int] == id);
        assert(all_ids(n).contains(id));
    }
    if all_ids(n).contains(id) {
        let i = choose|i: int| 0 <= i < all_ids(n).len() && all_ids(n)[i] == id;
    }
    if n <= id < n + m {
        let k = (id - n) as u32;
        assert(all_ids(m)[k as int] == k);
        lemma_shifted_has(all_ids(m), n, k);
    }
    if back.contains(id) {
        let i = choose|i: int| 0 <= i < back.len() && back[i] == id;
        assert(all_ids(m)[i] == i);
    }
}

/// What the base tells truly of a file that is not superseded, the view tells
/// truly.
pub proof fn lemma_base_is_faithful(v: Files, id: u32, data: Seq<u8>)
    requires
        id < base_count(v),
        !is_dead(v, id),
        tells_truth(v.base, id as nat, data),
    ensures
        faithful(v, id, data),
{
    let scan = listed_scan_always(v.base);
    let more = match v.overlay {
        Some(o) => shifted(listed_scan_always(o), base_count(v)),
        None => Seq::empty(),
    };
    lemma_live(v, scan);
    lemma_concat_has(live(v, scan), more, id);
    assert forall|t: u32| #[trigger] trigrams(data).contains(t) && lists_file(
        v.base,
        t,
        id as nat,
    ) implies (view_list(v, t) matches Ok(Some(ids)) ==> ids.contains(id)) by {
        match list_of(v.base, layout_of(v.base), t) {
            Ok(Listing::Ids(ids)) => {
                lemma_live(v, ids);
                assert(live(v, ids).contains(id));
                if let Some(o) = v.overlay {
                    if let Ok(Listing::Ids(more)) = list_of(o, layout_of(o), t) {
                        lemma_concat_has(live(v, ids), shifted(more, base_count(v)), id);
                    }
                }
            },
            _ => {},
        }
    }
}

/// What the overlay tells truly, the view tells truly.
pub proof fn lemma_overlay_is_faithful(v: Files, k: u32, data: Seq<u8>)
    requires
        base_count(v) + overlay_count(v) <= u32::MAX,
        k < overlay_count(v),
        v.overlay matches Some(o) && tells_truth(o, k as nat, data),
    ensures
        faithful(v, (base_count(v) + k) as u32, data),
{
    let o = v.overlay->Some_0;
    let n = base_count(v);
    let id = (n + k) as u32;
    let scan = listed_scan_always(o);
    if scan.contains(k) {
        lemma_shifted_has(scan, n, k);
    }
    lemma_concat_has(live(v, listed_scan_always(v.base)), shifted(scan, n), id);
    assert forall|t: u32| #[trigger] trigrams(data).contains(t) && lists_file(
        o,
        t,
        k as nat,
    ) implies (view_list(v, t) matches Ok(Some(ids)) ==> ids.contains(id)) by {
        if let Ok(Listing::Ids(ids)) = list_of(v.base, layout_of(v.base), t) {
            if let Ok(Listing::Ids(more)) = list_of(o, layout_of(o), t) {
                lemma_shifted_has(more, n, k);
                lemma_concat_has(live(v, ids), shifted(more, n), id);
            }
        }
    }
}

pub proof fn lemma_scan_is_alive(v: Files)
    requires
        base_count(v) + overlay_count(v) <= u32::MAX,
        sound(v.base),
        v.overlay matches Some(o) ==> sound(o),
    ensures
        forall|id: u32| #[trigger]
            alive_scan_always(v).contains(id) ==> alive_ids(v).contains(id),
{
    assert forall|id: u32| #[trigger] alive_scan_always(v).contains(id) implies alive_ids(
        v,
    ).contains(id) by {
        let n = base_count(v);
        let scan = listed_scan_always(v.base);
        let more = match v.overlay {
            Some(o) => shifted(listed_scan_always(o), n),
            None => Seq::empty(),
        };
        lemma_alive(v, id);
        lemma_live(v, scan);
        lemma_concat_has(live(v, scan), more, id);
        if live(v, scan).contains(id) {
            let i = choose|i: int| 0 <= i < scan.len() && scan[i] == id;
        } else {
            let i = choose|i: int| 0 <= i < more.len() && more[i] == id;
            let o = v.overlay->Some_0;
            assert(listed_scan_always(o)[i] < layout_of(o).file_count);
        }
    }
}

pub proof fn lemma_superseded(cls: Seq<(Fate, u32)>, n: nat, id: u32)
    requires
        n <= u32::MAX,
    ensures
        superseded(cls, n).contains(id) <==> id < n && !keeps(cls, cls.len() as int, id as int),
    decreases n,
{
    if n > 0 {
        lemma_superseded(cls, (n - 1) as nat, id);
        let before = superseded(cls, (n - 1) as nat);
        let after = superseded(cls, n);
        if !keeps(cls, cls.len() as int, n - 1) {
            assert(after[before.len() as int] == n - 1);
            if before.contains(id) {
                let i = choose|i: int| 0 <= i < before.len() && before[i] == id;
                assert(after[i] == id);
            }
            if after.contains(id) && id != n - 1 {
                let i = choose|i: int| 0 <= i < after.len() && after[i] == id;
                assert(before[i] == id);
            }
        }
    }
}

proof fn lemma_picked(cls: Seq<(Fate, u32)>, full: bool, n: int, j: int) -> (k: int)
    requires
        0 <= j < n <= cls.len(),
        full || !(cls[j].0 is Base),
    ensures
        0 <= k < picks(cls, full, n).len(),
        picks(cls, full, n)[k] == j,
    decreases n,
{
    if j == n - 1 {
        picks(cls, full, n).len() - 1
    } else {
        lemma_picked(cls, full, n - 1, j)
    }
}

/// The index files after a build that writes.
pub open spec fn built_view(x: Building) -> Files {
    if x.set.full {
        Files { base: image(x.out), overlay: None }
    } else {
        Files { base: x.prior.base->Some_0, overlay: Some(image(x.out)) }
    }
}

/// A record reads back as its candidate's.
proof fn lemma_record(x: Building, k: int)
    requires
        well_built(x),
        0 <= k < x.out.files.len(),
    ensures
        ({
            let e = x.out.files[k];
            let c = x.found[picked_in(x)[k]];
            &&& file_at(image(x.out), layout_of(image(x.out)), k as nat) == Ok::<Entry, Fault>(e)
            &&& 0 <= picked_in(x)[k] < x.found.len()
            &&& e.path == c.rel_path@
            &&& (e.flags & FLAG_HIDDEN != 0) == c.hidden
        }),
{
    reveal(well_built);
    let cls = classes_in(x);
    let i = picked_in(x)[k];
    lemma_picks(cls, x.set.full, x.found.len() as int, x.found.len() as int);
    law_written_file_reads_back(x.out, k);
    assert(is_record(x.out.files[k], x.found, cls, i));
    lemma_class_id(x.prior, x.found, x.max, i);
    lemma_flag_bits(cls[i].1);
    lemma_new_flags(x.found[i], x.max);
}

/// The files of the view after a build.
pub proof fn lemma_built_counts(x: Building)
    requires
        well_built(x),
    ensures
        sound(image(x.out)),
        layout_of(image(x.out)).file_count == x.out.files.len(),
        listed_tombstones(image(x.out)) == x.out.tombstones,
        !x.set.full ==> x.prior.base is Some,
        x.set.full ==> base_count(built_view(x)) == x.out.files.len() && overlay_count(
            built_view(x),
        ) == 0,
        !x.set.full ==> base_count(built_view(x)) == count_of(x.prior.base) && overlay_count(
            built_view(x),
        ) == x.out.files.len(),
{
    reveal(well_built);
    law_written_index_opens(x.out);
    law_written_ids_read_back(x.out);
    lemma_sources_tidy(x);
    law_merge_is_exact(sources_in(x));
    lemma_picks(classes_in(x), x.set.full, x.found.len() as int, x.found.len() as int);
    law_written_index_is_sound(x.out);
}

/// An alive file of the view is one that was found, and the view tells the
/// truth about it.
proof fn lemma_alive_is_found(x: Building, data: spec_fn(Seq<char>) -> Seq<u8>, id: u32)
    requires
        well_built(x),
        texts_as_read(x, data),
        base_count(built_view(x)) + overlay_count(built_view(x)) <= u32::MAX,
        alive_ids(built_view(x)).contains(id),
    ensures
        exists|j: int| 0 <= j < x.found.len() && #[trigger] is_same_file(built_view(x), id, x.found[j]),
        faithful(built_view(x), id, data(view_file(built_view(x), id)->Ok_0.path)),
{
    reveal(well_built);
    reveal(texts_as_read);
    let v = built_view(x);
    let cls = classes_in(x);
    let picked = picked_in(x);
    lemma_alive(v, id);
    lemma_built_counts(x);
    if x.set.full {
        let k = id as int;
        lemma_record(x, k);
        law_build_tells_truth(x, data, k);
        lemma_base_is_faithful(v, id, data(x.out.files[k].path));
        assert(is_same_file(v, id, x.found[picked[k]]));
    } else if id < base_count(v) {
        lemma_superseded(cls, count_of(x.prior.base), id);
        assert(keeps(cls, cls.len() as int, id as int));
        let j = choose|j: int| 0 <= j < cls.len() && (#[trigger] cls[j]).0 == Fate::Base(id);
        lemma_class_id(x.prior, x.found, x.max, j);
        assert(tells_truth(v.base, id as nat, data(x.found[j].rel_path@)));
        lemma_base_is_faithful(v, id, data(x.found[j].rel_path@));
        assert(is_same_file(v, id, x.found[j]));
    } else {
        let k = id - base_count(v);
        lemma_record(x, k);
        law_build_tells_truth(x, data, k);
        lemma_overlay_is_faithful(v, k as u32, data(x.out.files[k].path));
        assert(is_same_file(v, id, x.found[picked[k]]));
    }
}

/// A file that was found is an alive file of the view.
proof fn lemma_found_is_alive(x: Building, j: int)
    requires
        well_built(x),
        base_count(built_view(x)) + overlay_count(built_view(x)) <= u32::MAX,
        0 <= j < x.found.len(),
    ensures
        has_file(built_view(x), x.found[j]),
{
    reveal(well_built);
    let v = built_view(x);
    let cls = classes_in(x);
    lemma_built_counts(x);
    lemma_class_id(x.prior, x.found, x.max, j);
    if x.set.full || !(cls[j].0 is Base) {
        let k = lemma_picked(cls, x.set.full, x.found.len() as int, j);
        lemma_record(x, k);
        let id = if x.set.full {
            k as u32
        } else {
            (base_count(v) + k) as u32
        };
        lemma_alive(v, id);
        assert(is_same_file(v, id, x.found[j]));
    } else {
        let id = cls[j].0->Base_0;
        assert(keeps(cls, cls.len() as int, id as int));
        lemma_superseded(cls, count_of(x.prior.base), id);
        lemma_alive(v, id);
        assert(is_same_file(v, id, x.found[j]));
    }
}

/// After a build the view is of exactly the files found, and tells the truth
/// about each: a fresh base, or the base with the new overlay.
pub proof fn law_built_view_is_up_to_date(x: Building, texts: Texts)
    requires
        well_built(x),
        texts_as_read(x, texts.data),
        base_count(built_view(x)) + overlay_count(built_view(x)) <= u32::MAX,
    ensures
        up_to_date(built_view(x), x.found, texts),
{
    assert(alive_are_found(built_view(x), x.found)) by {
        lemma_alive_are_found(x, texts.data);
    }
    assert(found_are_alive(built_view(x), x.found)) by {
        lemma_found_are_alive(x);
    }
    assert(all_faithful(built_view(x), texts)) by {
        lemma_all_faithful(x, texts);
    }
}

proof fn lemma_alive_are_found(x: Building, data: spec_fn(Seq<char>) -> Seq<u8>)
    requires
        well_built(x),
        texts_as_read(x, data),
        base_count(built_view(x)) + overlay_count(built_view(x)) <= u32::MAX,
    ensures
        alive_are_found(built_view(x), x.found),
{
    let v = built_view(x);
    assert forall|id: u32| #[trigger] alive_ids(v).contains(id) implies exists|j: int|
        0 <= j < x.found.len() && #[trigger] is_same_file(v, id, x.found[j]) by {
        lemma_alive_is_found(x, data, id);
    }
}

proof fn lemma_found_are_alive(x: Building)
    requires
        well_built(x),
        base_count(built_view(x)) + overlay_count(built_view(x)) <= u32::MAX,
    ensures
        found_are_alive(built_view(x), x.found),
{
    let v = built_view(x);
    assert forall|j: int| 0 <= j < x.found.len() implies has_file(v, #[trigger] x.found[j]) by {
        lemma_found_is_alive(x, j);
    }
}

proof fn lemma_all_faithful(x: Building, texts: Texts)
    requires
        well_built(x),
        texts_as_read(x, texts.data),
        base_count(built_view(x)) + overlay_count(built_view(x)) <= u32::MAX,
    ensures
        all_faithful(built_view(x), texts),
{
    reveal(well_built);
    let v = built_view(x);
    lemma_built_counts(x);
    lemma_scan_is_alive(v);
    assert forall|id: u32| #[trigger] alive_ids(v).contains(id) implies faithful(
        v,
        id,
        (texts.data)(view_file(v, id)->Ok_0.path),
    ) by {
        lemma_alive_is_found(x, texts.data, id);
    }
}

} // verus!
