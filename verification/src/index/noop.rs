//! Building again right after a build writes nothing.

use crate::index::builder::{
    class_of, classes, count_of, keeps, lemma_picks, mode_of, new_files, over_kept, picks, prior_of,
    superseded, Fate, Mode, Prior,
};
use crate::index::image::{ids_at, image, layout_of, Entry};
use crate::index::known::{is_known, lemma_latest, lookup};
use crate::index::readback::{
    law_written_file_reads_back, law_written_ids_read_back, law_written_index_opens,
};
use crate::index::refresh::{
    classes_in, is_record, lemma_class_id, lemma_flag_bits, lemma_new_flags, lemma_picks_distinct,
    picked_in, well_built, Building,
};
use vstd::prelude::*;

verus! {

/// The index files after a build that writes.
pub open spec fn prior_after(x: Building) -> Prior {
    if x.set.full {
        Prior { base: Some(image(x.out)), over: None }
    } else {
        Prior { base: x.prior.base, over: Some(image(x.out)) }
    }
}

/// A record still describes its candidate.
proof fn lemma_record_holds(x: Building, k: int)
    requires
        well_built(x),
        0 <= k < x.out.files.len(),
    ensures
        0 <= picked_in(x)[k] < x.found.len(),
        crate::index::builder::still_holds(
            x.out.files[k],
            x.found[picked_in(x)[k]],
            x.max,
        ),
        x.out.files[k].path == x.found[picked_in(x)[k]].rel_path@,
{
    reveal(well_built);
    let cls = classes_in(x);
    let i = picked_in(x)[k];
    lemma_picks(cls, x.set.full, x.found.len() as int, x.found.len() as int);
    assert(is_record(x.out.files[k], x.found, cls, i));
    lemma_class_id(x.prior, x.found, x.max, i);
    lemma_flag_bits(cls[i].1);
    lemma_new_flags(x.found[i], x.max);
}

/// A record is found by its path.
proof fn lemma_record_is_found(x: Building, k: int)
    requires
        well_built(x),
        0 <= k < x.out.files.len(),
    ensures
        lookup(Some(image(x.out)), x.out.files[k].path) == Some((k as nat, x.out.files[k])),
        x.out.files.len() < u32::MAX,
{
    reveal(well_built);
    let b = image(x.out);
    let picked = picked_in(x);
    let path = x.out.files[k].path;
    lemma_picks(classes_in(x), x.set.full, x.found.len() as int, x.found.len() as int);
    lemma_picks_distinct(classes_in(x), x.set.full, x.found.len() as int);
    law_written_index_opens(x.out);
    law_written_file_reads_back(x.out, k);
    lemma_record_holds(x, k);
    assert forall|m: nat, e: Entry| k < m && #[trigger] is_known(b, m, e) implies e.path != path by {
        law_written_file_reads_back(x.out, m as int);
        lemma_record_holds(x, m as int);
        assert(picked[k] < picked[m as int]);
    }
    lemma_latest(b, path, layout_of(b).file_count, k as nat, x.out.files[k]);
}

/// The record of a candidate that is written.
proof fn lemma_has_record(cls: Seq<(Fate, u32)>, full: bool, n: int, j: int) -> (k: int)
    requires
        0 <= j < n <= cls.len(),
        full || !(cls[j].0 is Base),
    ensures
        0 <= k < picks(cls, full, n).len(),
        picks(cls, full, n)[k] == j,
        full ==> k == j,
    decreases n,
{
    if full {
        lemma_all_picked(cls, n);
    }
    if j == n - 1 {
        picks(cls, full, n).len() - 1
    } else {
        lemma_has_record(cls, full, n - 1, j)
    }
}

proof fn lemma_all_picked(cls: Seq<(Fate, u32)>, n: int)
    requires
        0 <= n <= cls.len(),
    ensures
        picks(cls, true, n).len() == n,
    decreases n,
{
    if n > 0 {
        lemma_all_picked(cls, n - 1);
    }
}

/// How a candidate is classified after the build.
proof fn lemma_class_again(x: Building, j: int)
    requires
        well_built(x),
        0 <= j < x.found.len(),
    ensures
        ({
            let again = class_of(prior_after(x), x.found[j], x.max).0;
            if x.set.full {
                again == Fate::Base(j as u32)
            } else if classes_in(x)[j].0 is Base {
                again == classes_in(x)[j].0
            } else {
                again is Over
            }
        }),
{
    let cls = classes_in(x);
    assert(x.set.full || !(cls[j].0 is Base) ==> picked_in(x).len() == x.out.files.len()) by {
        reveal(well_built);
    }
    if x.set.full || !(cls[j].0 is Base) {
        let k = lemma_has_record(cls, x.set.full, x.found.len() as int, j);
        lemma_record_holds(x, k);
        lemma_record_is_found(x, k);
    }
}

proof fn lemma_all_kept(cls: Seq<(Fate, u32)>, n: nat)
    requires
        n <= cls.len(),
        n <= u32::MAX,
        forall|j: int| 0 <= j < cls.len() ==> (#[trigger] cls[j]).0 == Fate::Base(j as u32),
    ensures
        superseded(cls, n) == Seq::<u32>::empty(),
    decreases n,
{
    if n > 0 {
        lemma_all_kept(cls, (n - 1) as nat);
        assert(cls[n - 1].0 == Fate::Base((n - 1) as u32));
        assert(keeps(cls, cls.len() as int, n - 1));
    }
}

proof fn lemma_none_over(cls: Seq<(Fate, u32)>, n: int)
    requires
        0 <= n <= cls.len(),
        forall|j: int| 0 <= j < cls.len() ==> (#[trigger] cls[j]).0 is Base,
    ensures
        over_kept(cls, n) == 0,
        new_files(cls, n) == 0,
    decreases n,
{
    if n > 0 {
        lemma_none_over(cls, n - 1);
    }
}

proof fn lemma_counts_again(cls: Seq<(Fate, u32)>, again: Seq<(Fate, u32)>, n: int)
    requires
        0 <= n <= cls.len(),
        again.len() == cls.len(),
        forall|j: int|
            0 <= j < cls.len() ==> if cls[j].0 is Base {
                (#[trigger] again[j]).0 == cls[j].0
            } else {
                again[j].0 is Over
            },
    ensures
        new_files(again, n) == 0,
        over_kept(again, n) == picks(cls, false, n).len(),
        over_kept(cls, n) + new_files(cls, n) == picks(cls, false, n).len(),
    decreases n,
{
    if n > 0 {
        lemma_counts_again(cls, again, n - 1);
        assert(again[n - 1].0 is Over || again[n - 1].0 == cls[n - 1].0);
    }
}

proof fn lemma_superseded_again(cls: Seq<(Fate, u32)>, again: Seq<(Fate, u32)>, n: nat)
    requires
        again.len() == cls.len(),
        forall|j: int|
            0 <= j < cls.len() ==> if cls[j].0 is Base {
                (#[trigger] again[j]).0 == cls[j].0
            } else {
                again[j].0 is Over
            },
    ensures
        superseded(again, n) == superseded(cls, n),
    decreases n,
{
    if n > 0 {
        lemma_superseded_again(cls, again, (n - 1) as nat);
        let id = n - 1;
        let len = cls.len() as int;
        if keeps(cls, len, id) {
            let i = choose|i: int| 0 <= i < len && (#[trigger] cls[i]).0 == Fate::Base(id as u32);
            assert(again[i].0 == cls[i].0);
            assert(keeps(again, len, id));
        }
        if keeps(again, len, id) {
            let i = choose|i: int|
                0 <= i < len && (#[trigger] again[i]).0 == Fate::Base(id as u32);
            assert(cls[i].0 == again[i].0);
            assert(keeps(cls, len, id));
        }
    }
}

/// A build of an unchanged tree, right after a build, writes nothing: all its
/// files are reused from what was written.
pub proof fn law_unchanged_tree_writes_nothing(x: Building)
    requires
        well_built(x),
    ensures
        prior_of(prior_after(x).base, prior_after(x).over) == prior_after(x),
        mode_of(prior_after(x), classes(prior_after(x), x.found, x.max)) == Mode::Unchanged,
{
    let p = prior_after(x);
    let cls = classes_in(x);
    let again = classes(p, x.found, x.max);
    let n = x.found.len() as int;
    lemma_written_facts(x);
    if x.set.full {
        assert forall|j: int| 0 <= j < again.len() implies (#[trigger] again[j]).0 == Fate::Base(
            j as u32,
        ) by {
            lemma_class_again(x, j);
        }
        lemma_all_kept(again, n as nat);
        lemma_none_over(again, n);
        lemma_all_picked(cls, n);
    } else {
        assert forall|j: int| 0 <= j < cls.len() implies if cls[j].0 is Base {
            (#[trigger] again[j]).0 == cls[j].0
        } else {
            again[j].0 is Over
        } by {
            lemma_class_again(x, j);
        }
        lemma_counts_again(cls, again, n);
        lemma_superseded_again(cls, again, count_of(x.prior.base));
    }
}

/// What the written file says of itself.
proof fn lemma_written_facts(x: Building)
    requires
        well_built(x),
    ensures
        x.found.len() < u32::MAX,
        layout_of(image(x.out)).file_count == picked_in(x).len(),
        layout_of(image(x.out)).parent_id == x.set.parent_id,
        ids_at(
            image(x.out),
            layout_of(image(x.out)).tombstones_off,
            layout_of(image(x.out)).tombstones_count,
        ) == x.set.tombstones@,
        !x.set.full ==> x.set.tombstones@ == superseded(classes_in(x), count_of(x.prior.base)),
        !x.set.full ==> mode_of(x.prior, classes_in(x)) == Mode::Overlay && x.prior.base is Some
            && x.set.parent_id == layout_of(x.prior.base->Some_0).build_id,
{
    reveal(well_built);
    law_written_index_opens(x.out);
    law_written_ids_read_back(x.out);
}

} // verus!
