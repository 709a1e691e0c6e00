//! Planning a build: which files are read, which are reused, and where the
//! result goes.
//!
//! With a usable base index, changes accumulate in a small overlay next to
//! it: the refresh cost tracks the churn since the base was built, not the
//! tree size. Past a threshold (or without a base) everything is folded into
//! a fresh base and the overlay is dropped.

use crate::index::candidates::Candidate;
use crate::index::format::{bytes_of, FileRecord, IndexReader};
use crate::index::image::{
    file_at, ids_at, layout_of, Entry, Fault, FLAG_HIDDEN, FLAG_SCAN_ALWAYS, FLAG_UNINDEXED,
};
use crate::index::known::{find_known, known_files, latest, lists_files, lookup, Known};
use crate::index::reuse::NO_ID;
use vstd::prelude::*;

verus! {

#[derive(Debug, Clone, Copy)]
pub struct BuildOptions {
    /// Files larger than this are not indexed; they are recorded and always
    /// scanned at search time so results stay complete.
    pub max_file_size: u64,
    /// How many threads to use; none given means as many as the machine runs
    /// at a time.
    pub threads: Option<usize>,
    /// Approximate in-memory postings budget in bytes. Above it the partial
    /// run is spilled next to the index and merged back at write time.
    pub spill_budget: usize,
}

impl Default for BuildOptions {
    fn default() -> (r: BuildOptions)
        ensures
            r.max_file_size == 0x400_0000,
            r.threads is None,
            r.spill_budget == 0x2000_0000,
    {
        // 64 MiB: generous enough that virtually everything in a source tree
        // is indexed. Every scan-always file is re-scanned by every query, so
        // an unindexed header of 20 MB would put a floor under all search
        // latencies.
        BuildOptions { max_file_size: 0x400_0000, threads: None, spill_budget: 0x2000_0000 }
    }
}

#[derive(Debug, Clone, Copy, PartialEq, Eq, Structural)]
pub struct BuildStats {
    pub files_total: usize,
    pub files_indexed: usize,
    pub files_reused: usize,
    pub files_binary: usize,
    pub files_scan_always: usize,
    /// Files actually read and trigram-extracted this build (changed/new).
    pub files_extracted: usize,
    pub bytes_read: u64,
}

/// Where a candidate's current contents already live, if anywhere.
#[derive(Debug, Clone, Copy, PartialEq, Eq, Structural)]
pub enum Fate {
    /// Unchanged since the base was built: base id.
    Base(u32),
    /// Unchanged since the old overlay was written: old overlay id.
    Over(u32),
    /// New or changed: must be read.
    New,
}

/// The index files that a build starts from.
pub struct Prior {
    pub base: Option<Seq<u8>>,
    pub over: Option<Seq<u8>>,
}

/// An overlay only counts if it belongs to this exact base.
pub open spec fn prior_of(base: Option<Seq<u8>>, over: Option<Seq<u8>>) -> Prior {
    Prior {
        base,
        over: match (base, over) {
            (Some(b), Some(o)) => if layout_of(o).parent_id == layout_of(b).build_id {
                Some(o)
            } else {
                None
            },
            _ => None,
        },
    }
}

/// The number of files of an index, if there is one.
pub open spec fn count_of(index: Option<Seq<u8>>) -> nat {
    match index {
        Some(b) => layout_of(b).file_count,
        None => 0,
    }
}

/// The flags of a file that is yet to be read.
pub open spec fn new_flags(c: Candidate, max: u64) -> u32 {
    (if c.size > max {
        FLAG_SCAN_ALWAYS
    } else {
        0
    }) | (if c.hidden {
        FLAG_HIDDEN
    } else {
        0
    })
}

/// Whether an entry still describes a file: the same size and time, and on
/// the same side of the size cap and of hiddenness.
pub open spec fn still_holds(e: Entry, c: Candidate, max: u64) -> bool {
    &&& e.size == c.size
    &&& e.mtime == c.mtime
    &&& (e.flags & FLAG_SCAN_ALWAYS != 0) == (c.size > max)
    &&& (e.flags & FLAG_HIDDEN != 0) == c.hidden
}

/// Where a candidate's contents live, and its flags. A base match is
/// preferred so that reverted files migrate back out of the overlay.
pub open spec fn class_of(p: Prior, c: Candidate, max: u64) -> (Fate, u32) {
    match (lookup(p.base, c.rel_path@), lookup(p.over, c.rel_path@)) {
        (Some((id, e)), _) if still_holds(e, c, max) => (Fate::Base(id as u32), e.flags),
        (_, Some((id, e))) if still_holds(e, c, max) => (Fate::Over(id as u32), e.flags),
        _ => (Fate::New, new_flags(c, max)),
    }
}

pub open spec fn classes(p: Prior, found: Seq<Candidate>, max: u64) -> Seq<(Fate, u32)> {
    Seq::new(found.len(), |i: int| class_of(p, found[i], max))
}

pub proof fn lemma_lookup_in_range(b: Seq<u8>, path: Seq<char>, n: nat)
    ensures
        latest(b, path, n) matches Some((id, e)) ==> id < n && e.path == path && file_at(
            b,
            layout_of(b),
            id,
        ) == Ok::<Entry, Fault>(e),
    decreases n,
{
    if n > 0 {
        lemma_lookup_in_range(b, path, (n - 1) as nat);
    }
}

fn holds_still(k: &Known, c: &Candidate, max: u64) -> (r: bool)
    ensures
        r == still_holds(k.meta@, *c, max),
{
    k.meta.size == c.size && k.meta.mtime == c.mtime && (k.meta.flags & FLAG_SCAN_ALWAYS != 0) == (
    c.size > max) && (k.meta.flags & FLAG_HIDDEN != 0) == c.hidden
}

fn classify(
    c: &Candidate,
    base: &Vec<Known>,
    over: &Vec<Known>,
    max: u64,
    Ghost(p): Ghost<Prior>,
) -> (r: (Fate, u32))
    requires
        lists_files(base@, p.base),
        lists_files(over@, p.over),
    ensures
        r == class_of(p, *c, max),
        r.0 matches Fate::Base(id) ==> id < count_of(p.base),
        r.0 matches Fate::Over(id) ==> id < count_of(p.over),
{
    let path = c.rel_path.as_str();
    proof {
        if let Some(b) = p.base {
            lemma_lookup_in_range(b, path@, layout_of(b).file_count);
        }
        if let Some(o) = p.over {
            lemma_lookup_in_range(o, path@, layout_of(o).file_count);
        }
    }
    if let Some(k) = find_known(base, path, Ghost(p.base)) {
        if holds_still(&k, c, max) {
            return (Fate::Base(k.id), k.meta.flags);
        }
    }
    if let Some(k) = find_known(over, path, Ghost(p.over)) {
        if holds_still(&k, c, max) {
            return (Fate::Over(k.id), k.meta.flags);
        }
    }
    let mut flags: u32 = 0;
    if c.size > max {
        flags = FLAG_SCAN_ALWAYS;
    }
    if c.hidden {
        flags = flags | FLAG_HIDDEN;
    } else {
        assert(flags | 0u32 == flags) by (bit_vector);
    }
    (Fate::New, flags)
}

/// Whether a candidate keeps base file `id`.
pub open spec fn keeps(cls: Seq<(Fate, u32)>, n: int, id: int) -> bool {
    exists|i: int| 0 <= i < n && (#[trigger] cls[i]).0 == Fate::Base(id as u32)
}

/// The base files below `n` without a surviving candidate: deleted, changed,
/// or reclassified.
pub open spec fn superseded(cls: Seq<(Fate, u32)>, n: nat) -> Seq<u32>
    decreases n,
{
    if n == 0 {
        Seq::empty()
    } else if keeps(cls, cls.len() as int, n - 1) {
        superseded(cls, (n - 1) as nat)
    } else {
        superseded(cls, (n - 1) as nat).push((n - 1) as u32)
    }
}

/// The number of the first `n` candidates that the old overlay has.
pub open spec fn over_kept(cls: Seq<(Fate, u32)>, n: int) -> nat
    decreases n,
{
    if n <= 0 {
        0
    } else {
        over_kept(cls, n - 1) + if cls[n - 1].0 is Over {
            1nat
        } else {
            0
        }
    }
}

/// The number of the first `n` candidates that must be read.
pub open spec fn new_files(cls: Seq<(Fate, u32)>, n: int) -> nat
    decreases n,
{
    if n <= 0 {
        0
    } else {
        new_files(cls, n - 1) + if cls[n - 1].0 is New {
            1nat
        } else {
            0
        }
    }
}

/// The size at which an overlay is folded into the base.
pub open spec fn overlay_cap(base_count: nat) -> nat {
    if base_count / 8 > 64 {
        base_count / 8
    } else {
        64
    }
}

/// What a build does.
#[derive(Debug, Clone, Copy, PartialEq, Eq, Structural)]
pub enum Mode {
    /// Nothing changed relative to base and overlay: write nothing.
    Unchanged,
    /// Everything reverted to the base: the overlay is obsolete.
    DropOverlay,
    /// Write an overlay next to the base.
    Overlay,
    /// Write a fresh base.
    Full,
}

/// What a build does. It folds into a fresh base when there is none, or when
/// the overlay would grow past its budget: searches pay for overlay size on
/// every query, and the fold amortizes.
pub open spec fn mode_of(p: Prior, cls: Seq<(Fate, u32)>) -> Mode {
    let over = over_kept(cls, cls.len() as int);
    let new = new_files(cls, cls.len() as int);
    let dead = superseded(cls, count_of(p.base));
    let cap = overlay_cap(count_of(p.base));
    if p.base is None || over + new > cap || dead.len() > cap {
        Mode::Full
    } else if new == 0 && over == count_of(p.over) && dead == match p.over {
        Some(o) => ids_at(o, layout_of(o).tombstones_off, layout_of(o).tombstones_count),
        None => Seq::empty(),
    } {
        Mode::Unchanged
    } else if over + new == 0 && dead.len() == 0 {
        Mode::DropOverlay
    } else {
        Mode::Overlay
    }
}

/// The candidates among the first `n` that are written: all of them into a
/// base, those that the base does not have into an overlay.
pub open spec fn picks(cls: Seq<(Fate, u32)>, full: bool, n: int) -> Seq<int>
    decreases n,
{
    if n <= 0 {
        Seq::empty()
    } else if full || !(cls[n - 1].0 is Base) {
        picks(cls, full, n - 1).push(n - 1)
    } else {
        picks(cls, full, n - 1)
    }
}

/// The entry of a candidate.
pub open spec fn entry_of(c: Candidate, flags: u32) -> Entry {
    Entry { path: c.rel_path@, size: c.size, mtime: c.mtime, flags }
}

/// Among the first `n` files that are written, the new ids and candidates of
/// those that must be read.
pub open spec fn to_read(cls: Seq<(Fate, u32)>, picked: Seq<int>, n: int) -> Seq<(u32, usize)>
    decreases n,
{
    if n <= 0 {
        Seq::empty()
    } else {
        let (class, flags) = cls[picked[n - 1]];
        if class is New && flags & FLAG_SCAN_ALWAYS == 0 {
            to_read(cls, picked, n - 1).push(((n - 1) as u32, picked[n - 1] as usize))
        } else {
            to_read(cls, picked, n - 1)
        }
    }
}

/// The old id whose lists a file keeps, in the base or in the old overlay.
pub open spec fn reused_id(c: (Fate, u32), base: bool) -> Option<u32> {
    if c.1 & FLAG_UNINDEXED != 0 {
        None
    } else {
        match c.0 {
            Fate::Base(id) if base => Some(id),
            Fate::Over(id) if !base => Some(id),
            _ => None,
        }
    }
}

/// The new ids of `count` old files, as far as the first `n` files that are
/// written reuse them.
pub open spec fn new_ids(
    cls: Seq<(Fate, u32)>,
    picked: Seq<int>,
    base: bool,
    count: nat,
    n: int,
) -> Seq<u32>
    decreases n,
{
    if n <= 0 {
        Seq::new(count, |i: int| NO_ID)
    } else {
        let before = new_ids(cls, picked, base, count, n - 1);
        match reused_id(cls[picked[n - 1]], base) {
            Some(id) if (id as nat) < count => before.update(id as int, (n - 1) as u32),
            _ => before,
        }
    }
}

/// What a build writes.
#[derive(Debug)]
pub struct WriteSet {
    /// A fresh base; else an overlay.
    pub full: bool,
    pub records: Vec<FileRecord>,
    /// The candidate of each record, so that late binary discoveries update
    /// the flags too.
    pub sources: Vec<usize>,
    /// The records to read, and their candidates.
    pub to_extract: Vec<(u32, usize)>,
    /// New ids of the base's files.
    pub remap_base: Vec<u32>,
    /// New ids of the old overlay's files.
    pub remap_over: Vec<u32>,
    pub tombstones: Vec<u32>,
    pub parent_id: u64,
}

/// Whether a write set is the one for the given classes.
pub open spec fn is_write_set(
    w: WriteSet,
    p: Prior,
    found: Seq<Candidate>,
    cls: Seq<(Fate, u32)>,
    full: bool,
) -> bool {
    let picked = picks(cls, full, cls.len() as int);
    let n = picked.len();
    &&& w.full == full
    &&& w.records@.len() == n
    &&& forall|k: int|
        0 <= k < n ==> (#[trigger] w.records@[k])@ == entry_of(found[picked[k]], cls[picked[k]].1)
    &&& w.sources@.len() == n
    &&& forall|k: int| 0 <= k < n ==> #[trigger] w.sources@[k] == picked[k]
    &&& w.to_extract@ == to_read(cls, picked, n as int)
    &&& w.remap_base@ == if full {
        new_ids(cls, picked, true, count_of(p.base), n as int)
    } else {
        Seq::empty()
    }
    &&& w.remap_over@ == new_ids(cls, picked, false, count_of(p.over), n as int)
    &&& w.tombstones@ == if full {
        Seq::empty()
    } else {
        superseded(cls, count_of(p.base))
    }
    &&& w.parent_id == match p.base {
        Some(b) if !full => layout_of(b).build_id,
        _ => 0,
    }
}

pub proof fn lemma_picks(cls: Seq<(Fate, u32)>, full: bool, n: int, m: int)
    requires
        0 <= n <= m <= cls.len(),
    ensures
        picks(cls, full, n).len() <= n,
        picks(cls, full, n).len() <= picks(cls, full, m).len(),
        picks(cls, full, m).take(picks(cls, full, n).len() as int) == picks(cls, full, n),
        forall|k: int|
            0 <= k < picks(cls, full, n).len() ==> 0 <= #[trigger] picks(cls, full, n)[k] < n,
    decreases m,
{
    let a = picks(cls, full, n);
    let b = picks(cls, full, m);
    if n < m {
        lemma_picks(cls, full, n, m - 1);
        let c = picks(cls, full, m - 1);
        assert(b.take(a.len() as int) =~= c.take(a.len() as int));
    } else {
        assert(b.take(a.len() as int) =~= a);
        if n > 0 {
            lemma_picks(cls, full, n - 1, n - 1);
        }
    }
}

proof fn lemma_to_read_prefix(cls: Seq<(Fate, u32)>, a: Seq<int>, b: Seq<int>, n: int)
    requires
        0 <= n <= a.len() <= b.len(),
        b.take(a.len() as int) == a,
    ensures
        to_read(cls, a, n) == to_read(cls, b, n),
    decreases n,
{
    if n > 0 {
        lemma_to_read_prefix(cls, a, b, n - 1);
        assert(b.take(a.len() as int)[n - 1] == b[n - 1]);
    }
}

proof fn lemma_new_ids_prefix(
    cls: Seq<(Fate, u32)>,
    a: Seq<int>,
    b: Seq<int>,
    base: bool,
    count: nat,
    n: int,
)
    requires
        0 <= n <= a.len() <= b.len(),
        b.take(a.len() as int) == a,
    ensures
        new_ids(cls, a, base, count, n) == new_ids(cls, b, base, count, n),
        new_ids(cls, a, base, count, n).len() == count,
    decreases n,
{
    if n > 0 {
        lemma_new_ids_prefix(cls, a, b, base, count, n - 1);
        assert(b.take(a.len() as int)[n - 1] == b[n - 1]);
    }
}

/// A map in which no old file has a new id yet.
fn no_ids(count: usize) -> (r: Vec<u32>)
    ensures
        r@ == Seq::new(count as nat, |i: int| NO_ID),
{
    let mut r: Vec<u32> = Vec::new();
    for i in 0..count
        invariant
            r@.len() == i,
            forall|k: int| 0 <= k < i ==> r@[k] == NO_ID,
    {
        r.push(NO_ID);
    }
    assert(r@ =~= Seq::new(count as nat, |i: int| NO_ID));
    r
}

/// Materializes the write set for the chosen mode.
fn collect_write_set(
    found: &Vec<Candidate>,
    cls: &Vec<(Fate, u32)>,
    full: bool,
    base_count: usize,
    over_count: usize,
    dead: Vec<u32>,
    build_id: u64,
    Ghost(p): Ghost<Prior>,
) -> (r: WriteSet)
    requires
        found@.len() < u32::MAX,
        cls@.len() == found@.len(),
        base_count == count_of(p.base),
        over_count == count_of(p.over),
        dead@ == superseded(cls@, count_of(p.base)),
        p.base matches Some(b) && build_id == layout_of(b).build_id || full,
        forall|i: int|
            0 <= i < cls@.len() ==> ((#[trigger] cls@[i]).0 matches Fate::Base(id) ==> id
                < base_count),
        forall|i: int|
            0 <= i < cls@.len() ==> ((#[trigger] cls@[i]).0 matches Fate::Over(id) ==> id
                < over_count),
    ensures
        is_write_set(r, p, found@, cls@, full),
{
    let mut records: Vec<FileRecord> = Vec::new();
    let mut sources: Vec<usize> = Vec::new();
    let mut to_extract: Vec<(u32, usize)> = Vec::new();
    let mut remap_base = no_ids(base_count);
    let mut remap_over = no_ids(over_count);
    for i in 0..found.len()
        invariant
            found@.len() < u32::MAX,
            cls@.len() == found@.len(),
            forall|i: int|
                0 <= i < cls@.len() ==> ((#[trigger] cls@[i]).0 matches Fate::Base(id) ==> id
                    < base_count),
            forall|i: int|
                0 <= i < cls@.len() ==> ((#[trigger] cls@[i]).0 matches Fate::Over(id) ==> id
                    < over_count),
            ({
                let picked = picks(cls@, full, i as int);
                let n = picked.len();
                &&& n <= i
                &&& records@.len() == n
                &&& forall|k: int|
                    0 <= k < n ==> (#[trigger] records@[k])@ == entry_of(
                        found@[picked[k]],
                        cls@[picked[k]].1,
                    )
                &&& sources@.len() == n
                &&& forall|k: int| 0 <= k < n ==> #[trigger] sources@[k] == picked[k]
                &&& to_extract@ == to_read(cls@, picked, n as int)
                &&& remap_base@ == new_ids(cls@, picked, true, base_count as nat, n as int)
                &&& remap_over@ == new_ids(cls@, picked, false, over_count as nat, n as int)
            }),
    {
        let (class, flags) = cls[i];
        let c = &found[i];
        let ghost before = picks(cls@, full, i as int);
        let ghost after = picks(cls@, full, i as int + 1);
        let ghost n = before.len() as int;
        let keep = match class {
            Fate::Base(_) => full,
            _ => true,
        };
        if keep {
            assert(after =~= before.push(i as int));
            proof {
                assert(after.take(n) =~= before);
                lemma_to_read_prefix(cls@, before, after, n);
                lemma_new_ids_prefix(cls@, before, after, true, base_count as nat, n);
                lemma_new_ids_prefix(cls@, before, after, false, over_count as nat, n);
            }
            let id: u32 = records.len() as u32;
            match class {
                Fate::Base(bid) => {
                    if flags & FLAG_UNINDEXED == 0 {
                        remap_base.set(bid as usize, id);
                    }
                },
                Fate::Over(oid) => {
                    if flags & FLAG_UNINDEXED == 0 {
                        remap_over.set(oid as usize, id);
                    }
                },
                Fate::New => {
                    if flags & FLAG_SCAN_ALWAYS == 0 {
                        to_extract.push((id, i));
                    }
                },
            }
            let ghost old_records = records@;
            records.push(
                FileRecord { rel_path: c.rel_path.clone(), size: c.size, mtime: c.mtime, flags },
            );
            sources.push(i);
            assert forall|k: int| 0 <= k < n + 1 implies (#[trigger] records@[k])@ == entry_of(
                found@[after[k]],
                cls@[after[k]].1,
            ) by {
                if k < n {
                    assert(records@[k] == old_records[k]);
                    assert(after[k] == before[k]);
                }
            }
        } else {
            assert(after == before);
        }
    }
    if !full {
        remap_base = Vec::new();
        assert(remap_base@ =~= Seq::<u32>::empty());
    }
    let none: Vec<u32> = Vec::new();
    assert(none@ =~= Seq::<u32>::empty());
    WriteSet {
        full,
        records,
        sources,
        to_extract,
        remap_base,
        remap_over,
        tombstones: if full {
            none
        } else {
            dead
        },
        parent_id: if full {
            0
        } else {
            build_id
        },
    }
}

/// The number of marks among the first `n`.
pub open spec fn marks(alive: Seq<bool>, n: nat) -> nat
    decreases n,
{
    if n == 0 {
        0
    } else {
        marks(alive, (n - 1) as nat) + if alive[n - 1] {
            1nat
        } else {
            0
        }
    }
}

proof fn lemma_marks_update(alive: Seq<bool>, id: int, n: nat)
    requires
        0 <= id < alive.len(),
        n <= alive.len(),
    ensures
        marks(alive.update(id, true), n) == marks(alive, n) + if id < n && !alive[id] {
            1nat
        } else {
            0
        },
    decreases n,
{
    if n > 0 {
        lemma_marks_update(alive, id, (n - 1) as nat);
    }
}

proof fn lemma_no_marks(alive: Seq<bool>, n: nat)
    requires
        n <= alive.len(),
        forall|i: int| 0 <= i < n ==> !alive[i],
    ensures
        marks(alive, n) == 0,
    decreases n,
{
    if n > 0 {
        lemma_no_marks(alive, (n - 1) as nat);
    }
}

/// What a build is to do.
#[derive(Debug)]
pub struct BuildPlan {
    pub mode: Mode,
    /// The flags of each candidate.
    pub flags: Vec<u32>,
    /// The number of files that are not read again.
    pub reused: usize,
    /// What to write, if anything.
    pub write: Option<WriteSet>,
}

/// The flags of classified candidates.
pub open spec fn flags_of(cls: Seq<(Fate, u32)>) -> Seq<u32> {
    Seq::new(cls.len(), |i: int| cls[i].1)
}

/// Whether a plan is the one for the given candidates and index files.
pub open spec fn is_plan(r: BuildPlan, p: Prior, found: Seq<Candidate>, max: u64) -> bool {
    let cls = classes(p, found, max);
    let mode = mode_of(p, cls);
    &&& r.mode == mode
    &&& r.flags@ == flags_of(cls)
    &&& r.reused == count_of(p.base) - superseded(cls, count_of(p.base)).len() + over_kept(
        cls,
        cls.len() as int,
    )
    &&& match r.write {
        Some(w) => (mode == Mode::Full || mode == Mode::Overlay) && is_write_set(
            w,
            p,
            found,
            cls,
            mode == Mode::Full,
        ),
        None => mode == Mode::Unchanged || mode == Mode::DropOverlay,
    }
}

/// The base files that a candidate keeps, marked, and the classes of the
/// candidates with their counts.
struct Survey {
    cls: Vec<(Fate, u32)>,
    alive: Vec<bool>,
    base_kept: usize,
    over_kept: usize,
    new_files: usize,
}

fn survey(
    found: &Vec<Candidate>,
    base: Option<&IndexReader>,
    over: Option<&IndexReader>,
    max: u64,
) -> (r: Survey)
    ensures
        ({
            let p = Prior { base: bytes_of(base), over: bytes_of(over) };
            let n = found@.len() as int;
            &&& r.cls@ == classes(p, found@, max)
            &&& r.alive@.len() == count_of(p.base)
            &&& r.alive@.len() <= u32::MAX
            &&& forall|id: int|
                0 <= id < r.alive@.len() ==> #[trigger] r.alive@[id] == keeps(r.cls@, n, id)
            &&& r.base_kept == marks(r.alive@, r.alive@.len())
            &&& r.over_kept == over_kept(r.cls@, n)
            &&& r.new_files == new_files(r.cls@, n)
            &&& r.base_kept + r.over_kept + r.new_files <= n
            &&& forall|i: int|
                0 <= i < n ==> ((#[trigger] r.cls@[i]).0 matches Fate::Base(id) ==> id < count_of(
                    p.base,
                ))
            &&& forall|i: int|
                0 <= i < n ==> ((#[trigger] r.cls@[i]).0 matches Fate::Over(id) ==> id < count_of(
                    p.over,
                ))
        }),
{
    let ghost p = Prior { base: bytes_of(base), over: bytes_of(over) };
    let ghost all = classes(p, found@, max);
    let base_known = known_files(base);
    let over_known = known_files(over);
    let base_count: usize = match base {
        Some(b) => b.file_count(),
        None => 0,
    };
    let mut alive: Vec<bool> = Vec::new();
    for i in 0..base_count
        invariant
            alive@.len() == i,
            forall|k: int| 0 <= k < i ==> !alive@[k],
    {
        alive.push(false);
    }
    proof {
        lemma_no_marks(alive@, alive@.len());
    }
    let mut cls: Vec<(Fate, u32)> = Vec::new();
    let mut base_kept: usize = 0;
    let mut over_kept: usize = 0;
    let mut new_files: usize = 0;
    for i in 0..found.len()
        invariant
            p == (Prior { base: bytes_of(base), over: bytes_of(over) }),
            all == classes(p, found@, max),
            lists_files(base_known@, p.base),
            lists_files(over_known@, p.over),
            base_count == count_of(p.base),
            base_count <= u32::MAX,
            cls@ == all.take(i as int),
            alive@.len() == base_count,
            forall|id: int| 0 <= id < base_count ==> #[trigger] alive@[id] == keeps(all, i as int, id),
            base_kept == marks(alive@, alive@.len()),
            over_kept == self::over_kept(all, i as int),
            new_files == self::new_files(all, i as int),
            base_kept + over_kept + new_files <= i,
            forall|k: int|
                0 <= k < i ==> ((#[trigger] all[k]).0 matches Fate::Base(id) ==> id < count_of(
                    p.base,
                )),
            forall|k: int|
                0 <= k < i ==> ((#[trigger] all[k]).0 matches Fate::Over(id) ==> id < count_of(
                    p.over,
                )),
    {
        let here = classify(&found[i], &base_known, &over_known, max, Ghost(p));
        let ghost was = alive@;
        assert(all[i as int] == here);
        cls.push(here);
        assert(cls@ =~= all.take(i as int + 1));
        match here.0 {
            Fate::Base(id) => {
                if !alive[id as usize] {
                    proof {
                        lemma_marks_update(alive@, id as int, alive@.len());
                    }
                    alive.set(id as usize, true);
                    base_kept = base_kept + 1;
                }
            },
            Fate::Over(_) => {
                over_kept = over_kept + 1;
            },
            Fate::New => {
                new_files = new_files + 1;
            },
        }
        assert forall|id: int| 0 <= id < base_count implies #[trigger] alive@[id] == keeps(
            all,
            i as int + 1,
            id,
        ) by {
            assert(was[id] == keeps(all, i as int, id));
            if keeps(all, i as int, id) {
                let k = choose|k: int|
                    0 <= k < i && (#[trigger] all[k]).0 == Fate::Base(id as u32);
                assert(all[k].0 == Fate::Base(id as u32));
            }
            if keeps(all, i as int + 1, id) {
                let k = choose|k: int|
                    0 <= k < i + 1 && (#[trigger] all[k]).0 == Fate::Base(id as u32);
                if k < i {
                    assert(keeps(all, i as int, id));
                }
            }
        }
    }
    assert(all.take(found@.len() as int) =~= all);
    Survey { cls, alive, base_kept, over_kept, new_files }
}

/// The base files that no candidate keeps.
fn superseded_ids(alive: &Vec<bool>, Ghost(cls): Ghost<Seq<(Fate, u32)>>) -> (r: Vec<u32>)
    requires
        alive@.len() <= u32::MAX,
        forall|id: int|
            0 <= id < alive@.len() ==> #[trigger] alive@[id] == keeps(cls, cls.len() as int, id),
    ensures
        r@ == superseded(cls, alive@.len()),
        r@.len() + marks(alive@, alive@.len()) == alive@.len(),
{
    let mut r: Vec<u32> = Vec::new();
    for i in 0..alive.len()
        invariant
            alive@.len() <= u32::MAX,
            forall|id: int|
                0 <= id < alive@.len() ==> #[trigger] alive@[id] == keeps(
                    cls,
                    cls.len() as int,
                    id,
                ),
            r@ == superseded(cls, i as nat),
            r@.len() + marks(alive@, i as nat) == i,
    {
        assert(alive@[i as int] == keeps(cls, cls.len() as int, i as int));
        if !alive[i] {
            r.push(i as u32);
        }
    }
    r
}

fn same_ids(a: &Vec<u32>, b: &Vec<u32>) -> (r: bool)
    ensures
        r == (a@ == b@),
{
    if a.len() != b.len() {
        return false;
    }
    for i in 0..a.len()
        invariant
            a@.len() == b@.len(),
            forall|k: int| 0 <= k < i ==> a@[k] == b@[k],
    {
        if a[i] != b[i] {
            return false;
        }
    }
    assert(a@ =~= b@);
    true
}

/// The overlay, if it belongs to the base.
pub fn paired_overlay<'b, 'a>(
    base: Option<&'b IndexReader<'a>>,
    over: Option<&'b IndexReader<'a>>,
) -> (r: Option<&'b IndexReader<'a>>)
    ensures
        bytes_of(r) == prior_of(bytes_of(base), bytes_of(over)).over,
{
    match (base, over) {
        (Some(b), Some(o)) => if o.index_ids().parent_id == b.index_ids().build_id {
            Some(o)
        } else {
            None
        },
        _ => None,
    }
}

/// Plans a build of the files found, from the index files that there are.
pub fn plan_build<'b, 'a>(
    found: &Vec<Candidate>,
    base: Option<&'b IndexReader<'a>>,
    over: Option<&'b IndexReader<'a>>,
    opts: &BuildOptions,
) -> (r: BuildPlan)
    requires
        found@.len() < u32::MAX,
    ensures
        is_plan(r, prior_of(bytes_of(base), bytes_of(over)), found@, opts.max_file_size),
{
    let ghost p = prior_of(bytes_of(base), bytes_of(over));
    let over = paired_overlay(base, over);
    let max: u64 = opts.max_file_size;
    let Survey { cls, alive, base_kept, over_kept, new_files } = survey(found, base, over, max);
    assert(p == (Prior { base: bytes_of(base), over: bytes_of(over) }));
    let base_count: usize = alive.len();
    let over_count: usize = match over {
        Some(o) => o.file_count(),
        None => 0,
    };
    let (build_id, has_base): (u64, bool) = match base {
        Some(b) => (b.index_ids().build_id, true),
        None => (0, false),
    };
    let dead = superseded_ids(&alive, Ghost(cls@));
    let mut flags: Vec<u32> = Vec::new();
    for i in 0..cls.len()
        invariant
            flags@.len() == i,
            forall|k: int| 0 <= k < i ==> flags@[k] == cls@[k].1,
    {
        flags.push(cls[i].1);
    }
    assert(flags@ =~= flags_of(cls@));
    let reused: usize = base_kept + over_kept;
    let mut cap: usize = base_count / 8;
    if cap < 64 {
        cap = 64;
    }
    let over_files: usize = over_kept + new_files;
    let full = !has_base || over_files > cap || dead.len() > cap;
    if !full {
        let old_dead: Vec<u32> = match over {
            Some(o) => o.tombstones(),
            None => Vec::new(),
        };
        assert(over is None ==> old_dead@ =~= Seq::<u32>::empty());
        if new_files == 0 && over_kept == over_count && same_ids(&dead, &old_dead) {
            return BuildPlan { mode: Mode::Unchanged, flags, reused, write: None };
        }
        if over_files == 0 && dead.len() == 0 {
            return BuildPlan { mode: Mode::DropOverlay, flags, reused, write: None };
        }
    }
    let mode = if full {
        Mode::Full
    } else {
        Mode::Overlay
    };
    let set = collect_write_set(
        found,
        &cls,
        full,
        base_count,
        over_count,
        dead,
        build_id,
        Ghost(p),
    );
    BuildPlan { mode, flags, reused, write: Some(set) }
}

} // verus!
