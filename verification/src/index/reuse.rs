//! Reusing the lists of an existing index under new file ids.

use crate::ids::{ascending_of, lemma_ascending_of};
use crate::index::format::{IndexError, IndexReader};
use crate::index::image::{keys_of, list_at, Fault, Layout};
use crate::index::postings::{Listing, Postings};
use crate::trigram::{ascending, sort_ascending};
use vstd::prelude::*;

verus! {

/// The new id of a file that is not reused.
pub const NO_ID: u32 = 0xffff_ffff;

/// Whether every id has an entry in the map to new ids.
pub open spec fn mappable(ids: Seq<u32>, remap: Seq<u32>) -> bool {
    forall|k: int| 0 <= k < ids.len() ==> #[trigger] ids[k] < remap.len()
}

/// The new ids of the reused files among the first `n` of a list.
pub open spec fn moved(ids: Seq<u32>, remap: Seq<u32>, n: int) -> Set<u32> {
    Set::new(
        |id: u32|
            id != NO_ID && exists|k: int|
                0 <= k < n && remap[(#[trigger] ids[k]) as int] == id,
    )
}

/// What a run of lists has still to come: lists, and the fault behind them,
/// if any.
#[verifier::ext_equal]
pub struct Tail {
    pub items: Seq<(u32, Listing)>,
    pub end: Option<Fault>,
}

pub open spec fn no_tail() -> Tail {
    Tail { items: Seq::empty(), end: None }
}

pub open spec fn fault_tail(f: Fault) -> Tail {
    Tail { items: Seq::empty(), end: Some(f) }
}

pub open spec fn in_front(item: (u32, Listing), t: Tail) -> Tail {
    Tail { items: seq![item] + t.items, end: t.end }
}

/// The lists of an index from entry `i` on, with new ids. A list of which no
/// file is reused is left out; a dense one passes through as it is.
pub open spec fn reused(b: Seq<u8>, l: Layout, remap: Seq<u32>, i: int) -> Tail
    decreases l.tri_count - i,
{
    if i < 0 || i >= l.tri_count {
        no_tail()
    } else {
        match list_at(b, l, i) {
            Err(f) => fault_tail(f),
            Ok(Listing::Dense(df)) => in_front(
                (keys_of(b, l)[i], Listing::Dense(df)),
                reused(b, l, remap, i + 1),
            ),
            Ok(Listing::Ids(ids)) => if !mappable(ids, remap) {
                fault_tail(Fault::Corrupt("posting id out of range"@))
            } else if moved(ids, remap, ids.len() as int) == Set::<u32>::empty() {
                reused(b, l, remap, i + 1)
            } else {
                in_front(
                    (
                        keys_of(b, l)[i],
                        Listing::Ids(ascending_of(moved(ids, remap, ids.len() as int))),
                    ),
                    reused(b, l, remap, i + 1),
                )
            },
        }
    }
}

/// The values of a list, ascending.
fn in_ascending_order(ids: Vec<u32>) -> (r: Vec<u32>)
    ensures
        ascending(r@),
        r@.to_set() == ids@.to_set(),
{
    let n: usize = ids.len();
    let mut rises = true;
    for i in 0..n
        invariant
            n == ids@.len(),
            rises ==> forall|a: int, b: int| 0 <= a < b < i ==> ids@[a] < ids@[b],
    {
        if i > 0 && ids[i - 1] >= ids[i] {
            rises = false;
        }
        if rises {
            assert forall|a: int, b: int| 0 <= a < b < i + 1 implies ids@[a] < ids@[b] by {
                if b == i && a < i - 1 {
                    assert(ids@[a] < ids@[i - 1]);
                }
            }
        }
    }
    if rises {
        return ids;
    }
    let mut all: Vec<u64> = Vec::new();
    for i in 0..n
        invariant
            n == ids@.len(),
            all@.len() == i,
            forall|k: int| 0 <= k < i ==> #[trigger] all@[k] == ids@[k],
    {
        all.push(ids[i] as u64);
    }
    let ghost found = all@;
    sort_ascending(&mut all);
    proof {
        found.to_multiset_ensures();
        all@.to_multiset_ensures();
        assert forall|x: u64| found.contains(x) <==> all@.contains(x) by {
            assert(found.to_multiset().count(x) == all@.to_multiset().count(x));
        }
        assert forall|k: int| 0 <= k < all@.len() implies #[trigger] all@[k] <= u32::MAX
            && ids@.contains(all@[k] as u32) by {
            assert(all@.contains(all@[k]));
            assert(found.contains(all@[k]));
            let w = choose|w: int| 0 <= w < found.len() && found[w] == all@[k];
            assert(found[w] == ids@[w]);
        }
    }
    let mut r: Vec<u32> = Vec::new();
    for i in 0..all.len()
        invariant
            forall|a: int, b: int| 0 <= a <= b < all@.len() ==> all@[a] <= all@[b],
            forall|k: int|
                0 <= k < all@.len() ==> #[trigger] all@[k] <= u32::MAX && ids@.contains(
                    all@[k] as u32,
                ),
            ascending(r@),
            r@.len() > 0 ==> i > 0 && r@.last() == all@[i - 1],
            i > 0 ==> r@.len() > 0,
            forall|k: int| 0 <= k < i ==> r@.contains(#[trigger] all@[k] as u32),
            forall|x: u32| #[trigger] r@.contains(x) ==> ids@.contains(x),
    {
        let x: u64 = all[i];
        if i == 0 || all[i - 1] != x {
            let ghost before = r@;
            r.push(x as u32);
            assert(r@.last() == all@[i as int]);
            assert forall|k: int| 0 <= k < before.len() implies before[k] < x by {
                assert(before[k] <= before.last());
            }
            assert forall|y: u32| before.contains(y) implies #[trigger] r@.contains(y) by {
                let w = choose|w: int| 0 <= w < before.len() && before[w] == y;
                assert(r@[w] == y);
            }
            assert forall|y: u32| #[trigger] r@.contains(y) implies ids@.contains(y) by {
                let w = choose|w: int| 0 <= w < r@.len() && r@[w] == y;
                if w < before.len() {
                    assert(before.contains(y));
                }
            }
            assert(r@.contains(x as u32));
        }
    }
    assert(r@.to_set() =~= ids@.to_set()) by {
        assert forall|x: u32| ids@.contains(x) implies #[trigger] r@.contains(x) by {
            let w = choose|w: int| 0 <= w < ids@.len() && ids@[w] == x;
            assert(found[w] == x);
            assert(found.contains(x as u64));
            let k = choose|k: int| 0 <= k < all@.len() && all@[k] == x as u64;
            assert(r@.contains(all@[k] as u32));
        }
    }
    r
}

/// The new ids of a list, or `None` where an id has no entry in the map.
fn moved_ids(ids: &Vec<u32>, remap: &Vec<u32>) -> (r: Option<Vec<u32>>)
    ensures
        match r {
            Some(m) => mappable(ids@, remap@) && m@ == ascending_of(
                moved(ids@, remap@, ids@.len() as int),
            ) && m@.to_set() == moved(ids@, remap@, ids@.len() as int) && ascending(m@),
            None => !mappable(ids@, remap@),
        },
{
    let mut m: Vec<u32> = Vec::new();
    assert(m@.to_set() =~= moved(ids@, remap@, 0));
    for i in 0..ids.len()
        invariant
            forall|k: int| 0 <= k < i ==> #[trigger] ids@[k] < remap@.len(),
            m@.to_set() == moved(ids@, remap@, i as int),
    {
        let id: u32 = ids[i];
        if id as usize >= remap.len() {
            assert(!mappable(ids@, remap@)) by {
                assert(ids@[i as int] >= remap@.len());
            }
            return None;
        }
        let new: u32 = remap[id as usize];
        let ghost before = m@;
        if new != NO_ID {
            m.push(new);
            assert(m@.last() == new);
        }
        assert(m@.to_set() =~= moved(ids@, remap@, i as int + 1)) by {
            assert forall|x: u32| m@.to_set().contains(x) <==> moved(
                ids@,
                remap@,
                i as int + 1,
            ).contains(x) by {
                assert(before.to_set().contains(x) <==> moved(ids@, remap@, i as int).contains(x));
                if before.contains(x) {
                    let w = choose|w: int| 0 <= w < before.len() && before[w] == x;
                    assert(m@[w] == x);
                    let k = choose|k: int|
                        0 <= k < i && remap@[(#[trigger] ids@[k]) as int] == x;
                    assert(remap@[ids@[k] as int] == x);
                }
                if m@.contains(x) {
                    let w = choose|w: int| 0 <= w < m@.len() && m@[w] == x;
                    if w < before.len() {
                        assert(before.contains(x));
                    } else {
                        assert(remap@[ids@[i as int] as int] == x);
                    }
                }
                if moved(ids@, remap@, i as int + 1).contains(x) {
                    let k = choose|k: int|
                        0 <= k < i + 1 && remap@[(#[trigger] ids@[k]) as int] == x;
                    if k < i {
                        assert(moved(ids@, remap@, i as int).contains(x));
                    } else {
                        assert(m@[before.len() as int] == x);
                    }
                }
            }
        }
    }
    let m = in_ascending_order(m);
    proof {
        lemma_ascending_of(m@);
    }
    Some(m)
}

/// An existing index streamed as a run: keys in its order, ids remapped to
/// new ids.
pub struct OldRun<'a> {
    old: &'a IndexReader<'a>,
    remap: &'a Vec<u32>,
    pos: usize,
    next: Option<(u32, Postings)>,
}

impl<'a> OldRun<'a> {
    pub closed spec fn wf(&self) -> bool {
        &&& self.pos <= self.old.layout().tri_count
        &&& match self.next {
            Some((_, Postings::Ids(ids))) => ascending(ids@),
            _ => true,
        }
    }

    spec fn behind(&self) -> Tail {
        reused(self.old.bytes(), self.old.layout(), self.remap@, self.pos as int)
    }

    /// What is still to come.
    pub closed spec fn tail(&self) -> Tail {
        match self.next {
            Some((key, list)) => in_front((key, list@), self.behind()),
            None => no_tail(),
        }
    }

    pub fn new(old: &'a IndexReader<'a>, remap: &'a Vec<u32>) -> (r: Result<OldRun<'a>, IndexError>)
        ensures
            match r {
                Ok(run) => run.wf() && run.tail() == reused(old.bytes(), old.layout(), remap@, 0)
                    && (run.tail().items.len() == 0 ==> run.tail().end is None),
                Err(e) => reused(old.bytes(), old.layout(), remap@, 0) == fault_tail(e.fault()),
            },
    {
        let mut run = OldRun { old, remap, pos: 0, next: None };
        match run.advance() {
            Ok(()) => Ok(run),
            Err(e) => Err(e),
        }
    }

    /// Reads on to the next list that has a reused file.
    fn advance(&mut self) -> (r: Result<(), IndexError>)
        requires
            old(self).pos <= old(self).old.layout().tri_count,
        ensures
            final(self).wf(),
            match r {
                Ok(()) => final(self).tail() == old(self).behind(),
                Err(e) => old(self).behind() == fault_tail(e.fault()),
            },
    {
        let ghost whole = self.behind();
        self.next = None;
        let n: usize = self.old.trigram_count();
        while self.pos < n
            invariant
                self.wf(),
                self.next is None,
                n == self.old.layout().tri_count,
                self.behind() == whole,
                whole == old(self).behind(),
            decreases n - self.pos,
        {
            let ghost b = self.old.bytes();
            let ghost l = self.old.layout();
            let i: usize = self.pos;
            let (key, list) = match self.old.entry(i) {
                Ok(x) => x,
                Err(e) => {
                    return Err(e);
                },
            };
            match list {
                Postings::Dense(df) => {
                    self.pos = i + 1;
                    self.next = Some((key, Postings::Dense(df)));
                    return Ok(());
                },
                Postings::Ids(ids) => {
                    let m = match moved_ids(&ids, self.remap) {
                        Some(m) => m,
                        None => {
                            return Err(IndexError::Corrupt("posting id out of range"));
                        },
                    };
                    let ghost set = moved(ids@, self.remap@, ids@.len() as int);
                    self.pos = i + 1;
                    if m.len() > 0 {
                        assert(m@.to_set().contains(m@[0]));
                        assert(set.contains(m@[0]));
                        self.next = Some((key, Postings::Ids(m)));
                        return Ok(());
                    }
                    assert(set =~= Set::<u32>::empty()) by {
                        assert(m@.to_set() =~= Set::<u32>::empty());
                    }
                },
            }
        }
        Ok(())
    }

    /// The key of the next list.
    pub fn peek(&self) -> (r: Option<u32>)
        ensures
            match r {
                Some(key) => self.tail().items.len() > 0 && self.tail().items[0].0 == key,
                None => self.tail() == no_tail(),
            },
    {
        match &self.next {
            Some((key, _)) => Some(*key),
            None => None,
        }
    }

    /// Takes the next list; the fault when what is behind it is corrupt.
    pub fn take(&mut self) -> (r: Result<Postings, IndexError>)
        requires
            old(self).wf(),
            old(self).tail().items.len() > 0,
        ensures
            final(self).wf(),
            match r {
                Ok(list) => {
                    &&& old(self).tail().items[0].1 == list@
                    &&& list matches Postings::Ids(ids) ==> ascending(ids@)
                    &&& final(self).tail() == (Tail {
                        items: old(self).tail().items.drop_first(),
                        end: old(self).tail().end,
                    })
                    &&& !(old(self).tail().items.len() == 1 && old(self).tail().end is Some)
                },
                Err(e) => old(self).tail().items.len() == 1 && old(self).tail().end == Some(
                    e.fault(),
                ),
            },
    {
        let ghost before = self.tail();
        let ghost behind = self.behind();
        let mut taken: Option<(u32, Postings)> = None;
        std::mem::swap(&mut taken, &mut self.next);
        assert(before.items.drop_first() =~= behind.items);
        match self.advance() {
            Ok(()) => match taken {
                Some((_, list)) => Ok(list),
                None => Ok(Postings::Dense(0)),
            },
            Err(e) => Err(e),
        }
    }
}

} // verus!
