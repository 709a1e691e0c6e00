//! What an index says about the texts of its files, and how builds keep it
//! true.

use crate::ids::{ascending_of, lemma_ascending_exists};
use crate::index::exact::{
    has_key, holds, holds_dense, item_holds, law_merge_is_exact, list_is_right, lists_dense,
    lists_hold, tidy, tidy_tail,
};
use crate::index::image::{
    file_at, ids_at, image, keys_of, layout_of, list_at, list_of, lists_rejected, probe, scan_always,
    Contents, Entry, Fault, Layout, FLAG_BINARY, FLAG_SCAN_ALWAYS,
};
use crate::index::merge::{merged, Sources};
use crate::index::postings::{all_ids, kept, law_kept_loses_no_file, storable, Listing};
use crate::index::readback::{
    keys_ascending, law_lookup_after_write, law_written_ids_read_back, law_written_index_opens,
    law_written_list_reads_back, lemma_probe, writable,
};
use crate::index::reuse::{in_front, mappable, moved, reused, Tail, NO_ID};
use crate::trigram::{ascending, is_binary, trigrams};
use vstd::prelude::*;

verus! {

/// Whether every list of an index is readable and of its files, keys
/// ascending, and the always-scanned ids are those of its files.
pub open spec fn sound(b: Seq<u8>) -> bool {
    let l = layout_of(b);
    let keys = keys_of(b, l);
    let scan = ids_at(b, l.scan_always_off, l.scan_always_count);
    &&& l.file_count <= u32::MAX
    &&& forall|i: int| 0 <= i < scan.len() ==> #[trigger] scan[i] < l.file_count
    &&& forall|i: int, j: int| 0 <= i < j < l.tri_count ==> keys[i] < keys[j]
    &&& forall|i: int|
        0 <= i < l.tri_count ==> match #[trigger] list_at(b, l, i) {
            Ok(Listing::Ids(ids)) => forall|k: int|
                0 <= k < ids.len() ==> #[trigger] ids[k] < l.file_count,
            Ok(Listing::Dense(_)) => true,
            Err(_) => false,
        }
}

/// Whether an index lists file `id` for a trigram, as far as it says
/// anything.
pub open spec fn lists_file(b: Seq<u8>, t: u32, id: nat) -> bool {
    match list_of(b, layout_of(b), t) {
        Ok(Listing::Ids(ids)) => ids.contains(id as u32),
        Ok(Listing::Dense(_)) => true,
        Err(_) => false,
    }
}

/// Whether an index tells the truth about a file with the text `data`: its
/// trigrams are listed unless it is too large or binary, a file that is too
/// large is always scanned, and a file called binary is.
pub open spec fn tells_truth(b: Seq<u8>, id: nat, data: Seq<u8>) -> bool {
    let l = layout_of(b);
    match file_at(b, l, id) {
        Ok(e) => {
            &&& e.flags & FLAG_BINARY != 0 ==> is_binary(data)
            &&& e.flags & FLAG_BINARY == 0 && e.flags & FLAG_SCAN_ALWAYS != 0 ==> ids_at(
                b,
                l.scan_always_off,
                l.scan_always_count,
            ).contains(id as u32)
            &&& e.flags & FLAG_BINARY == 0 && e.flags & FLAG_SCAN_ALWAYS == 0 ==> forall|t: u32|
             #[trigger]
                trigrams(data).contains(t) ==> lists_file(b, t, id)
        },
        Err(_) => false,
    }
}

/// Whether entry `j` of an index has the list of `key`, with a file whose new
/// id is `id`.
pub open spec fn entry_moves(
    b: Seq<u8>,
    l: Layout,
    remap: Seq<u32>,
    j: int,
    key: u32,
    id: u32,
) -> bool {
    keys_of(b, l)[j] == key && (list_at(b, l, j) matches Ok(Listing::Ids(ids)) && moved(
        ids,
        remap,
        ids.len() as int,
    ).contains(id))
}

/// Whether entry `j` of an index has a dense list of `key`.
pub open spec fn entry_dense(b: Seq<u8>, l: Layout, j: int, key: u32, df: u64) -> bool {
    keys_of(b, l)[j] == key && list_at(b, l, j) == Ok::<Listing, Fault>(Listing::Dense(df))
}

proof fn lemma_front_holds(item: (u32, Listing), t: Tail, key: u32, id: u32)
    ensures
        lists_hold(in_front(item, t).items, key, id) <==> item_holds(item, key, id) || lists_hold(
            t.items,
            key,
            id,
        ),
{
    let all = in_front(item, t).items;
    if item_holds(item, key, id) {
        assert(item_holds(all[0], key, id));
    }
    if lists_hold(t.items, key, id) {
        let j = choose|j: int| 0 <= j < t.items.len() && item_holds(#[trigger] t.items[j], key, id);
        assert(item_holds(all[j + 1], key, id));
    }
    if lists_hold(all, key, id) {
        let j = choose|j: int| 0 <= j < all.len() && item_holds(#[trigger] all[j], key, id);
        if j > 0 {
            assert(item_holds(t.items[j - 1], key, id));
        }
    }
}

proof fn lemma_front_dense(item: (u32, Listing), t: Tail, key: u32, df: u64)
    ensures
        lists_dense(in_front(item, t).items, key, df) <==> item == (key, Listing::Dense(df))
            || lists_dense(t.items, key, df),
{
    let all = in_front(item, t).items;
    if item == (key, Listing::Dense(df)) {
        assert(all[0] == (key, Listing::Dense(df)));
    }
    if lists_dense(t.items, key, df) {
        let j = choose|j: int|
            0 <= j < t.items.len() && #[trigger] t.items[j] == (key, Listing::Dense(df));
        assert(all[j + 1] == (key, Listing::Dense(df)));
    }
    if lists_dense(all, key, df) {
        let j = choose|j: int| 0 <= j < all.len() && #[trigger] all[j] == (key, Listing::Dense(df));
        if j > 0 {
            assert(t.items[j - 1] == (key, Listing::Dense(df)));
        }
    }
}

proof fn lemma_front_tidy(item: (u32, Listing), t: Tail)
    requires
        tidy_tail(t),
        t.items.len() > 0 ==> item.0 < t.items[0].0,
        item.1 matches Listing::Ids(ids) ==> ids.len() > 0,
    ensures
        tidy_tail(in_front(item, t)),
{
    let all = in_front(item, t).items;
    assert forall|i: int, j: int| 0 <= i < j < all.len() implies all[i].0 < all[j].0 by {
        assert(all[j] == t.items[j - 1]);
        if i > 0 {
            assert(all[i] == t.items[i - 1]);
        } else if j > 1 {
            assert(t.items[0].0 < t.items[j - 1].0);
        }
    }
    assert forall|j: int| 0 <= j < all.len() implies ((#[trigger] all[j]).1 matches Listing::Ids(
        ids,
    ) ==> ids.len() > 0) by {
        if j > 0 {
            assert(all[j] == t.items[j - 1]);
        }
    }
}

/// The lists that a sound index contributes are exactly its own, with new ids.
pub proof fn lemma_reused(b: Seq<u8>, remap: Seq<u32>, i: int)
    requires
        sound(b),
        remap.len() == layout_of(b).file_count,
        0 <= i <= layout_of(b).tri_count,
    ensures
        ({
            let l = layout_of(b);
            let t = reused(b, l, remap, i);
            &&& tidy_tail(t)
            &&& t.items.len() > 0 ==> i < l.tri_count && keys_of(b, l)[i] <= t.items[0].0
            &&& forall|key: u32, id: u32| #[trigger]
                lists_hold(t.items, key, id) <==> exists|j: int|
                    i <= j < l.tri_count && #[trigger] entry_moves(b, l, remap, j, key, id)
            &&& forall|key: u32, df: u64| #[trigger]
                lists_dense(t.items, key, df) <==> exists|j: int|
                    i <= j < l.tri_count && #[trigger] entry_dense(b, l, j, key, df)
        }),
    decreases layout_of(b).tri_count - i,
{
    let l = layout_of(b);
    let keys = keys_of(b, l);
    let t = reused(b, l, remap, i);
    if i < l.tri_count {
        lemma_reused(b, remap, i + 1);
        let rest = reused(b, l, remap, i + 1);
        if i + 1 < l.tri_count {
            assert(keys[i] < keys[i + 1]);
        }
        match list_at(b, l, i) {
            Ok(Listing::Ids(ids)) => {
                assert(mappable(ids, remap));
                let set = moved(ids, remap, ids.len() as int);
                lemma_ascending_exists(set);
                let item = (keys[i], Listing::Ids(ascending_of(set)));
                if set == Set::<u32>::empty() {
                    assert(t == rest);
                } else {
                    assert(ascending_of(set).len() > 0) by {
                        if ascending_of(set).len() == 0 {
                            assert(ascending_of(set).to_set() =~= Set::<u32>::empty());
                        }
                    }
                    lemma_front_tidy(item, rest);
                    assert(t == in_front(item, rest));
                }
                assert forall|key: u32, id: u32| #[trigger] lists_hold(t.items, key, id)
                    <==> exists|j: int|
                    i <= j < l.tri_count && #[trigger] entry_moves(b, l, remap, j, key, id) by {
                    assert(ascending_of(set).to_set().contains(id) <==> set.contains(id));
                    assert(item_holds(item, key, id) <==> entry_moves(b, l, remap, i, key, id));
                    lemma_front_holds(item, rest, key, id);
                    lemma_split_moves(b, l, remap, i, key, id);
                }
                assert forall|key: u32, df: u64| #[trigger] lists_dense(t.items, key, df)
                    <==> exists|j: int|
                    i <= j < l.tri_count && #[trigger] entry_dense(b, l, j, key, df) by {
                    lemma_front_dense(item, rest, key, df);
                    lemma_split_dense(b, l, i, key, df);
                }
            },
            Ok(Listing::Dense(d)) => {
                let item = (keys[i], Listing::Dense(d));
                lemma_front_tidy(item, rest);
                assert(t == in_front(item, rest));
                assert forall|key: u32, id: u32| #[trigger] lists_hold(t.items, key, id)
                    <==> exists|j: int|
                    i <= j < l.tri_count && #[trigger] entry_moves(b, l, remap, j, key, id) by {
                    lemma_front_holds(item, rest, key, id);
                    lemma_split_moves(b, l, remap, i, key, id);
                }
                assert forall|key: u32, df: u64| #[trigger] lists_dense(t.items, key, df)
                    <==> exists|j: int|
                    i <= j < l.tri_count && #[trigger] entry_dense(b, l, j, key, df) by {
                    lemma_front_dense(item, rest, key, df);
                    lemma_split_dense(b, l, i, key, df);
                }
            },
            Err(_) => {},
        }
    }
}

proof fn lemma_split_moves(b: Seq<u8>, l: Layout, remap: Seq<u32>, i: int, key: u32, id: u32)
    requires
        i < l.tri_count,
    ensures
        (exists|j: int| i <= j < l.tri_count && #[trigger] entry_moves(b, l, remap, j, key, id))
            <==> entry_moves(b, l, remap, i, key, id) || (exists|j: int|
            i + 1 <= j < l.tri_count && #[trigger] entry_moves(b, l, remap, j, key, id)),
{
    if exists|j: int| i <= j < l.tri_count && #[trigger] entry_moves(b, l, remap, j, key, id) {
        let j = choose|j: int|
            i <= j < l.tri_count && #[trigger] entry_moves(b, l, remap, j, key, id);
        if j > i {
            assert(entry_moves(b, l, remap, j, key, id));
        }
    }
}

proof fn lemma_split_dense(b: Seq<u8>, l: Layout, i: int, key: u32, df: u64)
    requires
        i < l.tri_count,
    ensures
        (exists|j: int| i <= j < l.tri_count && #[trigger] entry_dense(b, l, j, key, df))
            <==> entry_dense(b, l, i, key, df) || (exists|j: int|
            i + 1 <= j < l.tri_count && #[trigger] entry_dense(b, l, j, key, df)),
{
    if exists|j: int| i <= j < l.tri_count && #[trigger] entry_dense(b, l, j, key, df) {
        let j = choose|j: int| i <= j < l.tri_count && #[trigger] entry_dense(b, l, j, key, df);
        if j > i {
            assert(entry_dense(b, l, j, key, df));
        }
    }
}

/// What an index lists for a file, it contributes for the file's new id.
pub proof fn law_reuse_keeps_lists(b: Seq<u8>, remap: Seq<u32>, t: u32, id: u32)
    requires
        sound(b),
        remap.len() == layout_of(b).file_count,
        id < remap.len(),
        remap[id as int] != NO_ID,
        lists_file(b, t, id as nat),
    ensures
        ({
            let items = reused(b, layout_of(b), remap, 0).items;
            lists_hold(items, t, remap[id as int]) || exists|df: u64| lists_dense(items, t, df)
        }),
{
    let l = layout_of(b);
    let keys = keys_of(b, l);
    let items = reused(b, l, remap, 0).items;
    lemma_reused(b, remap, 0);
    lemma_probe(keys, t, 0, l.tri_count as int);
    match probe(keys, t, 0, l.tri_count as int) {
        Some(j) => {
            match list_at(b, l, j) {
                Ok(Listing::Ids(ids)) => {
                    let k = choose|k: int| 0 <= k < ids.len() && ids[k] == id;
                    let n = remap[id as int];
                    assert(remap[ids[k] as int] == n);
                    assert(moved(ids, remap, ids.len() as int).contains(n));
                    assert(entry_moves(b, l, remap, j, t, n));
                    assert(lists_hold(items, t, n));
                },
                Ok(Listing::Dense(df)) => {
                    assert(entry_dense(b, l, j, t, df));
                    assert(lists_dense(items, t, df));
                },
                Err(_) => {},
            }
        },
        None => {},
    }
}

proof fn lemma_accepted(lists: Seq<(u32, Listing)>, file_count: nat, n: int, i: int)
    requires
        lists_rejected(lists, file_count, n) is None,
        0 <= i < n,
    ensures
        lists[i].1 matches Listing::Ids(ids) ==> storable(ids, file_count),
    decreases n,
{
    if i < n - 1 {
        lemma_accepted(lists, file_count, n - 1, i);
    }
}

/// A written merge lists every file for what its sources have for it.
pub proof fn law_written_merge_lists(s: Sources, c: Contents, t: u32, id: u32)
    requires
        tidy(s),
        c.lists == merged(s).items,
        writable(c),
        c.files.len() <= u32::MAX,
        id < c.files.len(),
        holds(s, t, id) || exists|df: u64| holds_dense(s, t, df),
    ensures
        lists_file(image(c), t, id as nat),
{
    law_merge_is_exact(s);
    law_lookup_after_write(c, t);
    let n = c.files.len();
    assert(has_key(s, t));
    let j = choose|j: int| 0 <= j < c.lists.len() && (#[trigger] c.lists[j]).0 == t;
    assert(list_is_right(s, merged(s).items[j]));
    lemma_accepted(c.lists, n, c.lists.len() as int, j);
    match c.lists[j].1 {
        Listing::Ids(q) => {
            law_kept_loses_no_file(q, n);
            if let Listing::Ids(_) = kept(c.lists[j].1, n) {
                assert(q.contains(id));
            }
        },
        Listing::Dense(d) => {
            assert(all_ids(n)[id as int] == id);
        },
    }
}

pub proof fn lemma_scan_always(files: Seq<Entry>, n: int, k: int)
    requires
        0 <= n <= files.len() <= u32::MAX,
        0 <= k,
    ensures
        scan_always(files, n).contains(k as u32) && k <= u32::MAX <==> k < n && files[k].flags
            & FLAG_SCAN_ALWAYS != 0,
        forall|j: int| 0 <= j < scan_always(files, n).len() ==> #[trigger] scan_always(files, n)[j] < n,
    decreases n,
{
    if n > 0 {
        lemma_scan_always(files, n - 1, k);
        let before = scan_always(files, n - 1);
        let after = scan_always(files, n);
        if files[n - 1].flags & FLAG_SCAN_ALWAYS != 0 {
            assert(after[before.len() as int] == n - 1);
            if before.contains(k as u32) {
                let j = choose|j: int| 0 <= j < before.len() && before[j] == k as u32;
                assert(after[j] == k as u32);
            }
            if after.contains(k as u32) && k <= u32::MAX && k != n - 1 {
                let j = choose|j: int| 0 <= j < after.len() && after[j] == k as u32;
                assert(before[j] == k as u32);
            }
        }
    }
}

/// A written index is sound.
pub proof fn law_written_index_is_sound(c: Contents)
    requires
        writable(c),
        keys_ascending(c.lists),
        c.files.len() <= u32::MAX,
    ensures
        sound(image(c)),
{
    let b = image(c);
    let l = layout_of(b);
    let n = c.files.len();
    law_written_index_opens(c);
    law_written_ids_read_back(c);
    lemma_scan_always(c.files, n as int, 0);
    assert forall|i: int| 0 <= i < l.tri_count implies keys_of(b, l)[i] == c.lists[i].0 && match
        #[trigger] list_at(b, l, i) {
            Ok(Listing::Ids(ids)) => forall|k: int| 0 <= k < ids.len() ==> #[trigger] ids[k] < n,
            Ok(Listing::Dense(_)) => true,
            Err(_) => false,
        } by {
        law_written_list_reads_back(c, i);
        lemma_accepted(c.lists, n, c.lists.len() as int, i);
        match c.lists[i].1 {
            Listing::Ids(q) => {
                law_kept_loses_no_file(q, n);
            },
            Listing::Dense(_) => {
                assert forall|k: int| 0 <= k < all_ids(n).len() implies #[trigger] all_ids(n)[k]
                    < n by {}
            },
        }
    }
    assert forall|i: int, j: int| 0 <= i < j < l.tri_count implies keys_of(b, l)[i] < keys_of(
        b,
        l,
    )[j] by {
        assert(list_at(b, l, i) is Ok && list_at(b, l, j) is Ok);
        assert(c.lists[i].0 < c.lists[j].0);
    }
}

} // verus!
