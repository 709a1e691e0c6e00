//! The files of a base index and its overlay, and the query's candidates
//! among them.

use crate::ids::lemma_push_contains;
use crate::index::format::{bytes_of, FileMeta, IndexError, IndexReader};
use crate::index::image::{file_at, ids_at, layout_of, list_of, Entry, Fault};
use crate::index::postings::{all_ids, Listing, Postings};
use crate::trigram::ascending;
use vstd::prelude::*;
use vstd::view::View as _;

verus! {

/// The index files that a view is of.
pub struct Files {
    pub base: Seq<u8>,
    pub overlay: Option<Seq<u8>>,
}

pub open spec fn base_count(v: Files) -> nat {
    layout_of(v.base).file_count
}

pub open spec fn overlay_count(v: Files) -> nat {
    match v.overlay {
        Some(o) => layout_of(o).file_count,
        None => 0,
    }
}

/// The scan-always ids that an index file lists.
pub open spec fn listed_scan_always(b: Seq<u8>) -> Seq<u32> {
    ids_at(b, layout_of(b).scan_always_off, layout_of(b).scan_always_count)
}

/// The ids that an overlay supersedes.
pub open spec fn listed_tombstones(b: Seq<u8>) -> Seq<u32> {
    ids_at(b, layout_of(b).tombstones_off, layout_of(b).tombstones_count)
}

/// Whether the overlay supersedes a file of the base.
pub open spec fn is_dead(v: Files, id: u32) -> bool {
    v.overlay matches Some(o) && listed_tombstones(o).contains(id)
}

/// The ids of `list` that are not superseded.
pub open spec fn live(v: Files, list: Seq<u32>) -> Seq<u32>
    decreases list.len(),
{
    if list.len() == 0 {
        Seq::empty()
    } else if list.last() < base_count(v) && is_dead(v, list.last()) {
        live(v, list.drop_last())
    } else {
        live(v, list.drop_last()).push(list.last())
    }
}

/// The overlay's ids in the view: behind those of the base.
pub open spec fn shifted(list: Seq<u32>, by: nat) -> Seq<u32> {
    Seq::new(
        list.len(),
        |i: int|
            if list[i] + by <= u32::MAX {
                (list[i] + by) as u32
            } else {
                u32::MAX
            },
    )
}

/// Every alive id.
pub open spec fn alive_ids(v: Files) -> Seq<u32> {
    live(v, all_ids(base_count(v))) + shifted(all_ids(overlay_count(v)), base_count(v))
}

/// Alive scan-always ids across base and overlay.
pub open spec fn alive_scan_always(v: Files) -> Seq<u32> {
    live(v, listed_scan_always(v.base)) + match v.overlay {
        Some(o) => shifted(listed_scan_always(o), base_count(v)),
        None => Seq::empty(),
    }
}

/// A file of the view, or what is wrong with it.
pub open spec fn view_file(v: Files, id: u32) -> Result<Entry, Fault> {
    if id < base_count(v) {
        file_at(v.base, layout_of(v.base), id as nat)
    } else {
        match v.overlay {
            Some(o) => file_at(o, layout_of(o), (id - base_count(v)) as nat),
            None => Err(Fault::Corrupt("overlay id without overlay"@)),
        }
    }
}

/// The candidates for one trigram: None for every alive file, else the ids.
pub open spec fn view_list(v: Files, t: u32) -> Result<Option<Seq<u32>>, Fault> {
    match list_of(v.base, layout_of(v.base), t) {
        Err(f) => Err(f),
        Ok(Listing::Dense(_)) => Ok(None),
        Ok(Listing::Ids(ids)) => match v.overlay {
            None => Ok(Some(live(v, ids))),
            Some(o) => match list_of(o, layout_of(o), t) {
                Err(f) => Err(f),
                Ok(Listing::Dense(_)) => Ok(None),
                Ok(Listing::Ids(more)) => Ok(Some(live(v, ids) + shifted(more, base_count(v)))),
            },
        },
    }
}

/// Search-time composition of a base index and its (optional) overlay:
/// base ids stay `[0, B)`, overlay ids live at `[B, B+O)`, and base ids the
/// overlay superseded (tombstones) are dead.
pub struct View<'a> {
    base: &'a IndexReader<'a>,
    overlay: Option<&'a IndexReader<'a>>,
    /// Per base id: superseded by the overlay.
    dead: Vec<bool>,
    alive_base: usize,
}

/// A candidate id set during query evaluation. `All` (every alive file)
/// propagates lazily so dense trigrams and `.*`-ish queries never
/// materialize 90k-element vectors mid-expression.
pub enum IdSet {
    All,
    Ids(Vec<u32>),
}

/// The overlay that counts: one that belongs to this base, and whose ids fit
/// behind those of the base.
pub open spec fn paired(base: Seq<u8>, overlay: Option<Seq<u8>>) -> Files {
    Files {
        base,
        overlay: match overlay {
            Some(o) => if layout_of(o).parent_id == layout_of(base).build_id && layout_of(
                base,
            ).file_count + layout_of(o).file_count <= u32::MAX {
                Some(o)
            } else {
                None
            },
            None => None,
        },
    }
}

impl<'a> View<'a> {
    /// The files that the view is of.
    pub closed spec fn files(&self) -> Files {
        Files { base: self.base.bytes(), overlay: bytes_of(self.overlay) }
    }

    #[verifier::type_invariant]
    spec fn valid(self) -> bool {
        let v = Files { base: self.base.bytes(), overlay: bytes_of(self.overlay) };
        &&& self.dead@.len() == base_count(v)
        &&& forall|i: int| 0 <= i < self.dead@.len() ==> #[trigger] self.dead@[i] == is_dead(
            v,
            i as u32,
        )
        &&& base_count(v) + overlay_count(v) <= u32::MAX
        &&& self.alive_base == live(v, all_ids(base_count(v))).len()
    }

    pub fn new(base: &'a IndexReader<'a>, overlay: Option<&'a IndexReader<'a>>) -> (r: View<'a>)
        ensures
            r.files() == paired(base.bytes(), bytes_of(overlay)),
    {
        let n: usize = base.file_count();
        // Callers validate the pairing; be defensive anyway.
        let overlay = match overlay {
            Some(o) => if o.index_ids().parent_id == base.index_ids().build_id && o.file_count()
                <= u32::MAX as usize - n {
                Some(o)
            } else {
                None
            },
            None => None,
        };
        let ghost v = Files { base: base.bytes(), overlay: bytes_of(overlay) };
        let mut dead: Vec<bool> = Vec::new();
        for i in 0..n
            invariant
                dead@.len() == i,
                forall|k: int| 0 <= k < i ==> !#[trigger] dead@[k],
        {
            dead.push(false);
        }
        match overlay {
            Some(o) => {
                let gone = o.tombstones();
                for j in 0..gone.len()
                    invariant
                        n == base_count(v),
                        n <= u32::MAX,
                        dead@.len() == n,
                        gone@ == listed_tombstones(o.bytes()),
                        forall|k: int|
                            0 <= k < n ==> #[trigger] dead@[k] == gone@.take(j as int).contains(
                                k as u32,
                            ),
                {
                    let id: usize = gone[j] as usize;
                    let ghost before = dead@;
                    assert(gone@.take(j as int + 1) =~= gone@.take(j as int).push(gone@[j as int]));
                    if id < n {
                        dead.set(id, true);
                    }
                    assert forall|k: int| 0 <= k < n implies #[trigger] dead@[k] == gone@.take(
                        j as int + 1,
                    ).contains(k as u32) by {
                        lemma_push_contains(gone@.take(j as int), gone@[j as int], k as u32);
                        assert(before[k] == gone@.take(j as int).contains(k as u32));
                    }
                }
                assert(gone@.take(gone@.len() as int) =~= gone@);
            },
            None => {},
        }
        let mut alive: usize = 0;
        let ghost ids = all_ids(n as nat);
        assert(ids.take(0) =~= Seq::<u32>::empty());
        for i in 0..n
            invariant
                n == base_count(v),
                n <= u32::MAX,
                dead@.len() == n,
                ids == all_ids(n as nat),
                forall|k: int| 0 <= k < n ==> #[trigger] dead@[k] == is_dead(v, k as u32),
                alive == live(v, ids.take(i as int)).len(),
                alive <= i,
        {
            assert(ids.take(i as int + 1).drop_last() =~= ids.take(i as int));
            assert(dead@[i as int] == is_dead(v, i as u32));
            if !dead[i] {
                alive = alive + 1;
            }
        }
        assert(ids.take(n as int) =~= ids);
        View { base, overlay, dead, alive_base: alive }
    }

    /// Alive files across base and overlay.
    pub fn file_count(&self) -> (r: usize)
        ensures
            r == alive_ids(self.files()).len(),
    {
        proof {
            use_type_invariant(self);
            lemma_live_len(self.files(), all_ids(base_count(self.files())));
        }
        match self.overlay {
            Some(o) => self.alive_base + o.file_count(),
            None => self.alive_base,
        }
    }

    pub fn file(&self, id: u32) -> (r: Result<FileMeta<'a>, IndexError>)
        ensures
            match r {
                Ok(m) => view_file(self.files(), id) == Ok::<Entry, Fault>(m@),
                Err(e) => view_file(self.files(), id) == Err::<Entry, Fault>(e.fault()),
            },
    {
        let n: usize = self.base.file_count();
        if (id as usize) < n {
            self.base.file(id)
        } else {
            match self.overlay {
                Some(o) => o.file(id - n as u32),
                None => Err(IndexError::Corrupt("overlay id without overlay")),
            }
        }
    }

    /// The ids of `list` that are not superseded.
    fn keep_live(&self, list: &Vec<u32>) -> (r: Vec<u32>)
        ensures
            r@ == live(self.files(), list@),
    {
        proof {
            use_type_invariant(self);
        }
        let ghost v = self.files();
        let mut r: Vec<u32> = Vec::new();
        assert(list@.take(0) =~= Seq::<u32>::empty());
        for i in 0..list.len()
            invariant
                v == self.files(),
                self.dead@.len() == base_count(v),
                forall|k: int|
                    0 <= k < self.dead@.len() ==> #[trigger] self.dead@[k] == is_dead(
                        v,
                        k as u32,
                    ),
                r@ == live(v, list@.take(i as int)),
        {
            assert(list@.take(i as int + 1).drop_last() =~= list@.take(i as int));
            let id: usize = list[i] as usize;
            if id < self.dead.len() && self.dead[id] {
                assert(self.dead@[id as int] == is_dead(v, id as u32));
            } else {
                if id < self.dead.len() {
                    assert(self.dead@[id as int] == is_dead(v, id as u32));
                }
                r.push(list[i]);
            }
        }
        assert(list@.take(list@.len() as int) =~= list@);
        r
    }

    /// Appends the overlay's ids, behind those of the base.
    fn push_shifted(&self, out: &mut Vec<u32>, list: &Vec<u32>)
        ensures
            final(out)@ == old(out)@ + shifted(list@, base_count(self.files())),
    {
        let by: u32 = self.base.file_count() as u32;
        let ghost before = out@;
        let ghost all = shifted(list@, by as nat);
        assert(out@ =~= before + all.take(0));
        for i in 0..list.len()
            invariant
                all == shifted(list@, by as nat),
                out@ == before + all.take(i as int),
        {
            let id: u32 = if list[i] <= u32::MAX - by {
                list[i] + by
            } else {
                u32::MAX
            };
            out.push(id);
            assert(all[i as int] == id);
            assert(all.take(i as int).push(id) =~= all.take(i as int + 1));
        }
        assert(all.take(list@.len() as int) =~= all);
    }

    /// Candidate ids for one trigram, in ascending order (base then
    /// offset overlay ids).
    pub fn postings(&self, t: u32) -> (r: Result<IdSet, IndexError>)
        ensures
            match r {
                Ok(IdSet::All) => view_list(self.files(), t) == Ok::<Option<Seq<u32>>, Fault>(None),
                Ok(IdSet::Ids(ids)) => view_list(self.files(), t) == Ok::<
                    Option<Seq<u32>>,
                    Fault,
                >(Some(ids@)),
                Err(e) => view_list(self.files(), t) == Err::<Option<Seq<u32>>, Fault>(e.fault()),
            },
            base_count(self.files()) + overlay_count(self.files()) <= u32::MAX,
    {
        proof {
            use_type_invariant(self);
        }
        let base_ids = match self.base.postings(t) {
            Ok(Postings::Dense(_)) => {
                return Ok(IdSet::All);
            },
            Ok(Postings::Ids(ids)) => ids,
            Err(e) => {
                return Err(e);
            },
        };
        let mut ids = self.keep_live(&base_ids);
        match self.overlay {
            Some(o) => match o.postings(t) {
                Ok(Postings::Dense(_)) => {
                    return Ok(IdSet::All);
                },
                Ok(Postings::Ids(more)) => {
                    self.push_shifted(&mut ids, &more);
                },
                Err(e) => {
                    return Err(e);
                },
            },
            None => {},
        }
        Ok(IdSet::Ids(ids))
    }

    /// Every alive id (the top-level `ALL` materialization).
    pub fn all_ids(&self) -> (r: Vec<u32>)
        ensures
            r@ == alive_ids(self.files()),
    {
        let n: usize = self.base.file_count();
        let all = count_up(n);
        let mut r = self.keep_live(&all);
        match self.overlay {
            Some(o) => {
                let more = count_up(o.file_count());
                self.push_shifted(&mut r, &more);
            },
            None => {
                assert(r@ + shifted(all_ids(0), base_count(self.files())) =~= r@);
            },
        }
        r
    }

    /// Alive scan-always ids across base and overlay.
    pub fn scan_always(&self) -> (r: Vec<u32>)
        ensures
            r@ == alive_scan_always(self.files()),
    {
        let mut r = self.keep_live(&self.base.scan_always_ids());
        match self.overlay {
            Some(o) => {
                self.push_shifted(&mut r, &o.scan_always_ids());
            },
            None => {
                assert(r@ + Seq::<u32>::empty() =~= r@);
            },
        }
        r
    }
}

proof fn lemma_live_len(v: Files, list: Seq<u32>)
    ensures
        live(v, list).len() <= list.len(),
    decreases list.len(),
{
    if list.len() > 0 {
        lemma_live_len(v, list.drop_last());
    }
}

fn count_up(n: usize) -> (r: Vec<u32>)
    requires
        n <= u32::MAX,
    ensures
        r@ == all_ids(n as nat),
{
    let mut r: Vec<u32> = Vec::new();
    for i in 0..n
        invariant
            n <= u32::MAX,
            r@.len() == i,
            forall|k: int| 0 <= k < i ==> r@[k] == k,
    {
        r.push(i as u32);
    }
    assert(r@ =~= all_ids(n as nat));
    r
}

} // verus!
