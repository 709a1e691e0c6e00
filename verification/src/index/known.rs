//! Looking up the files of an index by their paths.

use crate::index::format::{FileMeta, IndexReader};
use crate::index::image::{file_at, layout_of, Entry, Fault};
use crate::order::{
    by_key, lemma_rank_flip, lemma_rank_same, lower_bound, rank, rank_of, sort_by_key, Keyed, Rank,
};
use vstd::prelude::*;
use vstd::utf8::{encode_utf8, encode_utf8_decode_utf8};

verus! {

/// Whether an index has file `id`, as `e`.
pub open spec fn is_known(b: Seq<u8>, id: nat, e: Entry) -> bool {
    id < layout_of(b).file_count && file_at(b, layout_of(b), id) == Ok::<Entry, Fault>(e)
}

/// The last of the first `n` files of an index with a given path.
pub open spec fn latest(b: Seq<u8>, path: Seq<char>, n: nat) -> Option<(nat, Entry)>
    decreases n,
{
    if n == 0 {
        None
    } else {
        match file_at(b, layout_of(b), (n - 1) as nat) {
            Ok(e) if e.path == path => Some(((n - 1) as nat, e)),
            _ => latest(b, path, (n - 1) as nat),
        }
    }
}

/// The file of an index with a given path. A file whose entry is unreadable
/// has none.
pub open spec fn lookup(b: Option<Seq<u8>>, path: Seq<char>) -> Option<(nat, Entry)> {
    match b {
        Some(b) => latest(b, path, layout_of(b).file_count),
        None => None,
    }
}

/// The last file with the path is the one that no other comes behind.
pub proof fn lemma_latest(b: Seq<u8>, path: Seq<char>, n: nat, id: nat, e: Entry)
    requires
        n <= layout_of(b).file_count,
        id < n,
        is_known(b, id, e),
        e.path == path,
        forall|k: nat, x: Entry| id < k && #[trigger] is_known(b, k, x) ==> x.path != path,
    ensures
        latest(b, path, n) == Some((id, e)),
    decreases n,
{
    if id < n - 1 {
        match file_at(b, layout_of(b), (n - 1) as nat) {
            Ok(x) => {
                assert(is_known(b, (n - 1) as nat, x));
            },
            Err(_) => {},
        }
        lemma_latest(b, path, (n - 1) as nat, id, e);
    }
}

pub proof fn lemma_no_latest(b: Seq<u8>, path: Seq<char>, n: nat)
    requires
        n <= layout_of(b).file_count,
        forall|k: nat, x: Entry| #[trigger] is_known(b, k, x) ==> x.path != path,
    ensures
        latest(b, path, n) is None,
    decreases n,
{
    if n > 0 {
        match file_at(b, layout_of(b), (n - 1) as nat) {
            Ok(x) => {
                assert(is_known(b, (n - 1) as nat, x));
            },
            Err(_) => {},
        }
        lemma_no_latest(b, path, (n - 1) as nat);
    }
}

/// A file of an index.
#[derive(Clone, Copy)]
pub struct Known<'a> {
    pub id: u32,
    pub meta: FileMeta<'a>,
}

impl<'a> Keyed for Known<'a> {
    open spec fn key(&self) -> Seq<u8> {
        encode_utf8(self.meta.rel_path@)
    }

    fn key_bytes(&self) -> (r: &[u8]) {
        self.meta.rel_path.as_bytes()
    }
}

/// Whether a list holds the readable files of an index, in the order of their
/// paths.
pub open spec fn lists_files(list: Seq<Known>, b: Option<Seq<u8>>) -> bool {
    &&& by_key(list)
    &&& match b {
        Some(b) => {
            &&& forall|i: int|
                0 <= i < list.len() ==> is_known(b, (#[trigger] list[i]).id as nat, list[i].meta@)
            &&& forall|id: nat, e: Entry| #[trigger]
                is_known(b, id, e) ==> exists|i: int|
                    0 <= i < list.len() && (#[trigger] list[i]).id == id
        },
        None => list.len() == 0,
    }
}

/// The readable files of an index, in the order of their paths.
pub(crate) fn known_files<'a>(index: Option<&IndexReader<'a>>) -> (r: Vec<Known<'a>>)
    ensures
        lists_files(
            r@,
            match index {
                Some(x) => Some(x.bytes()),
                None => None,
            },
        ),
{
    let mut all: Vec<Known<'a>> = Vec::new();
    let index = match index {
        Some(x) => x,
        None => {
            return all;
        },
    };
    let ghost b = index.bytes();
    let n: usize = index.file_count();
    for i in 0..n
        invariant
            n <= u32::MAX,
            b == index.bytes(),
            n == layout_of(b).file_count,
            forall|k: int|
                0 <= k < all@.len() ==> is_known(b, (#[trigger] all@[k]).id as nat, all@[k].meta@),
            forall|id: nat, e: Entry| #[trigger]
                is_known(b, id, e) && id < i ==> exists|k: int|
                    0 <= k < all@.len() && (#[trigger] all@[k]).id == id,
    {
        let ghost before = all@;
        match index.file(i as u32) {
            Ok(meta) => {
                all.push(Known { id: i as u32, meta });
                assert forall|id: nat, e: Entry| #[trigger]
                    is_known(b, id, e) && id < i + 1 implies exists|k: int|
                    0 <= k < all@.len() && (#[trigger] all@[k]).id == id by {
                    if id < i {
                        let k = choose|k: int|
                            0 <= k < before.len() && (#[trigger] before[k]).id == id;
                        assert(all@[k].id == id);
                    } else {
                        assert(all@[before.len() as int].id == id);
                    }
                }
            },
            Err(_) => {},
        }
    }
    let ghost found = all@;
    let r = sort_by_key(all);
    proof {
        found.to_multiset_ensures();
        r@.to_multiset_ensures();
        assert forall|k: int| 0 <= k < r@.len() implies is_known(
            b,
            (#[trigger] r@[k]).id as nat,
            r@[k].meta@,
        ) by {
            assert(r@.contains(r@[k]));
            assert(r@.to_multiset().count(r@[k]) > 0);
            assert(found.contains(r@[k]));
            let w = choose|w: int| 0 <= w < found.len() && found[w] == r@[k];
        }
        assert forall|id: nat, e: Entry| #[trigger] is_known(b, id, e) implies exists|k: int|
            0 <= k < r@.len() && (#[trigger] r@[k]).id == id by {
            let w = choose|w: int| 0 <= w < found.len() && (#[trigger] found[w]).id == id;
            assert(found.contains(found[w]));
            assert(found.to_multiset().count(found[w]) > 0);
            assert(r@.contains(found[w]));
            let k = choose|k: int| 0 <= k < r@.len() && r@[k] == found[w];
            assert(r@[k].id == id);
        }
    }
    r
}

/// The file with a given path.
pub(crate) fn find_known<'a>(list: &Vec<Known<'a>>, path: &str, Ghost(b): Ghost<Option<Seq<u8>>>) -> (r:
    Option<Known<'a>>)
    requires
        lists_files(list@, b),
    ensures
        match r {
            Some(k) => lookup(b, path@) == Some((k.id as nat, k.meta@)),
            None => lookup(b, path@) is None,
        },
{
    let bytes = path.as_bytes();
    let start: usize = lower_bound(list, bytes);
    let mut best: Option<Known<'a>> = None;
    let mut i: usize = start;
    loop
        invariant_except_break
            bytes@ == encode_utf8(path@),
            by_key(list@),
            start <= i <= list@.len(),
            forall|k: int|
                0 <= k < start ==> rank((#[trigger] list@[k]).key(), bytes@) == Rank::Below,
            forall|k: int|
                start <= k < list@.len() ==> rank((#[trigger] list@[k]).key(), bytes@)
                    != Rank::Below,
            match best {
                Some(x) => list@.contains(x) && x.meta.rel_path@ == path@,
                None => start == i,
            },
            forall|k: int|
                start <= k < i ==> (#[trigger] list@[k]).meta.rel_path@ == path@ && (best matches Some(
                    x,
                ) && list@[k].id <= x.id),
        ensures
            by_key(list@),
            start <= i <= list@.len(),
            match best {
                Some(x) => list@.contains(x) && x.meta.rel_path@ == path@,
                None => forall|k: int|
                    0 <= k < list@.len() ==> (#[trigger] list@[k]).meta.rel_path@ != path@,
            },
            forall|k: int|
                0 <= k < list@.len() && (#[trigger] list@[k]).meta.rel_path@ == path@ ==> (
                best matches Some(x) && list@[k].id <= x.id),
        decreases list@.len() - i,
    {
        if i >= list.len() {
            proof {
                lemma_outside(list@, bytes@, path@, start as int, i as int);
            }
            break;
        }
        let here = list[i];
        let ghost at = here.key();
        match rank_of(here.key_bytes(), bytes) {
            Rank::Same => {
                proof {
                    lemma_rank_same(at, bytes@);
                    encode_utf8_decode_utf8(here.meta.rel_path@);
                    encode_utf8_decode_utf8(path@);
                    assert(list@.contains(here));
                }
                best = match best {
                    Some(x) => if x.id >= here.id {
                        Some(x)
                    } else {
                        Some(here)
                    },
                    None => Some(here),
                };
                i = i + 1;
                assert(best is Some);
            },
            _ => {
                proof {
                    lemma_outside(list@, bytes@, path@, start as int, i as int);
                }
                break;
            },
        }
    }
    proof {
        assert forall|k: int|
            0 <= k < list@.len() && (#[trigger] list@[k]).meta.rel_path@ == path@ implies (
        best matches Some(x) && list@[k].id <= x.id) by {}
        match b {
            Some(b) => {
                let n = layout_of(b).file_count;
                match best {
                    Some(x) => {
                        let w = choose|w: int| 0 <= w < list@.len() && list@[w] == x;
                        assert(is_known(b, x.id as nat, x.meta@));
                        assert forall|k: nat, e: Entry|
                            x.id < k && #[trigger] is_known(b, k, e) implies e.path != path@ by {
                            let j = choose|j: int|
                                0 <= j < list@.len() && (#[trigger] list@[j]).id == k;
                            assert(is_known(b, list@[j].id as nat, list@[j].meta@));
                        }
                        lemma_latest(b, path@, n, x.id as nat, x.meta@);
                    },
                    None => {
                        assert forall|k: nat, e: Entry| #[trigger] is_known(b, k, e) implies e.path
                            != path@ by {
                            let j = choose|j: int|
                                0 <= j < list@.len() && (#[trigger] list@[j]).id == k;
                            assert(is_known(b, list@[j].id as nat, list@[j].meta@));
                        }
                        lemma_no_latest(b, path@, n);
                    },
                }
            },
            None => {},
        }
    }
    best
}

/// Nothing before `start` or from `i` on has the path.
proof fn lemma_outside(list: Seq<Known>, bytes: Seq<u8>, path: Seq<char>, start: int, i: int)
    requires
        by_key(list),
        bytes == encode_utf8(path),
        0 <= start <= i <= list.len(),
        forall|k: int| 0 <= k < start ==> rank((#[trigger] list[k]).key(), bytes) == Rank::Below,
        i < list.len() ==> rank(list[i].key(), bytes) == Rank::Above,
    ensures
        forall|k: int|
            0 <= k < list.len() && (#[trigger] list[k]).meta.rel_path@ == path ==> start <= k < i,
{
    assert forall|k: int|
        0 <= k < list.len() && (#[trigger] list[k]).meta.rel_path@ == path implies start <= k
        < i by {
        lemma_rank_same(list[k].key(), bytes);
        if k >= i {
            assert(rank(list[k].key(), bytes) == Rank::Same);
            lemma_rank_flip(bytes, list[i].key());
            if k > i {
                assert(rank(list[k].key(), list[i].key()) != Rank::Below);
            }
        }
    }
}

} // verus!
