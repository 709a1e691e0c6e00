//! What is read back of an index that was written.

use crate::bytes::{
    flat, from_le, law_le_round_trip, le, lemma_flat_at, lemma_flat_push, lemma_flat_uniform,
    lemma_flat_uniform_at, lemma_le_len, lemma_limits, lemma_nested, number_at,
};
use crate::index::image::{
    file_at, file_rows, files_off, header_parts, header_words, id_rows, ids_at, image, keys_of,
    layout_of, list_at, list_of, list_parts, list_rejected, list_word, lists_off, lists_rejected,
    magic, opened, oversized, path_parts, paths_off, postings_off, probe, root_of, scan_always,
    scan_always_off, sections, sizes, tagged, tombstones_off, tri_rows, written, Contents, Entry,
    Fault, Layout, Sizes, HEADER_LEN, VERSION, WORD_LIMIT,
};
use crate::index::postings::{
    kept, law_list_round_trip, list_count, list_encoding, Encoding, Listing,
};
use vstd::prelude::*;
use vstd::utf8::{encode_utf8, encode_utf8_decode_utf8, encode_utf8_valid_utf8};

verus! {

/// Whether contents can be written.
pub open spec fn writable(c: Contents) -> bool {
    lists_rejected(c.lists, c.files.len(), c.lists.len() as int) is None && !oversized(c)
}

/// Where section `k` begins.
spec fn section_off(z: Sizes, k: int) -> nat {
    if k == 0 {
        0
    } else if k == 1 {
        HEADER_LEN as nat
    } else if k == 2 {
        paths_off(z)
    } else if k == 3 {
        files_off(z)
    } else if k == 4 {
        scan_always_off(z)
    } else if k == 5 {
        tombstones_off(z)
    } else if k == 6 {
        lists_off(z)
    } else {
        postings_off(z)
    }
}

proof fn lemma_rows(c: Contents)
    ensures
        sections(c)[0].len() == HEADER_LEN,
        sections(c)[3].len() == 28 * c.files.len(),
        sections(c)[4].len() == 4 * sizes(c).scan_always,
        sections(c)[5].len() == 4 * c.tombstones.len(),
        sections(c)[6].len() == 16 * c.lists.len(),
        forall|i: int| 0 <= i < c.files.len() ==> (#[trigger] file_rows(c.files)[i]).len() == 28,
        forall|i: int|
            0 <= i < c.lists.len() ==> (#[trigger] tri_rows(c.lists, c.files.len())[i]).len() == 16,
{
    let z = sizes(c);
    let parts = header_parts(z, c.ids);
    assert forall|i: int| 0 <= i < parts.len() implies (#[trigger] parts[i]).len() == 8 by {
        if i > 0 {
            lemma_le_len(header_words(z, c.ids)[i - 1], 8);
        }
    }
    lemma_flat_uniform(parts, 8);
    let rows = file_rows(c.files);
    assert forall|i: int| 0 <= i < rows.len() implies (#[trigger] rows[i]).len() == 28 by {
        lemma_le_len(flat(path_parts(c.files).take(i)).len(), 4);
        lemma_le_len(path_parts(c.files)[i].len(), 4);
        lemma_le_len(c.files[i].size as nat, 8);
        lemma_le_len(c.files[i].mtime as nat, 8);
        lemma_le_len(c.files[i].flags as nat, 4);
    }
    lemma_flat_uniform(rows, 28);
    lemma_id_rows(scan_always(c.files, c.files.len() as int));
    lemma_id_rows(c.tombstones);
    let tris = tri_rows(c.lists, c.files.len());
    let lists = list_parts(c.lists, c.files.len());
    assert forall|i: int| 0 <= i < tris.len() implies (#[trigger] tris[i]).len() == 16 by {
        lemma_le_len(c.lists[i].0 as nat, 4);
        lemma_le_len(lists[i].len(), 4);
        lemma_le_len(list_word(c.lists[i].1, flat(lists.take(i)).len(), c.files.len()), 8);
    }
    lemma_flat_uniform(tris, 16);
}

proof fn lemma_id_rows(ids: Seq<u32>)
    ensures
        flat(id_rows(ids)).len() == 4 * ids.len(),
        forall|i: int| 0 <= i < ids.len() ==> (#[trigger] id_rows(ids)[i]).len() == 4,
{
    assert forall|i: int| 0 <= i < ids.len() implies (#[trigger] id_rows(ids)[i]).len() == 4 by {
        lemma_le_len(ids[i] as nat, 4);
    }
    lemma_flat_uniform(id_rows(ids), 4);
}

/// Section `k` stands at its offset.
proof fn lemma_section(c: Contents, k: int)
    requires
        0 <= k < 8,
    ensures
        section_off(sizes(c), k) + sections(c)[k].len() <= image(c).len(),
        image(c).subrange(
            section_off(sizes(c), k) as int,
            (section_off(sizes(c), k) + sections(c)[k].len()) as int,
        ) == sections(c)[k],
        image(c).len() == postings_off(sizes(c)) + sizes(c).postings,
{
    let s = sections(c);
    lemma_rows(c);
    assert(s.take(0) =~= Seq::<Seq<u8>>::empty());
    lemma_flat_push(s, 0);
    lemma_flat_push(s, 1);
    lemma_flat_push(s, 2);
    lemma_flat_push(s, 3);
    lemma_flat_push(s, 4);
    lemma_flat_push(s, 5);
    lemma_flat_push(s, 6);
    lemma_flat_push(s, 7);
    assert(s.take(8) =~= s);
    lemma_flat_at(s, k);
}

/// Word `k` of the header.
proof fn lemma_header_word(c: Contents, k: int)
    requires
        1 <= k < 20,
        header_words(sizes(c), c.ids)[k - 1] <= u64::MAX,
    ensures
        number_at(image(c), 8 * k, 8) == header_words(sizes(c), c.ids)[k - 1],
        image(c).subrange(8 * k, 8 * k + 8) == le(header_words(sizes(c), c.ids)[k - 1], 8),
{
    let parts = header_parts(sizes(c), c.ids);
    let w = header_words(sizes(c), c.ids)[k - 1];
    lemma_section(c, 0);
    lemma_rows(c);
    assert forall|i: int| 0 <= i < parts.len() implies (#[trigger] parts[i]).len() == 8 by {
        if i > 0 {
            lemma_le_len(header_words(sizes(c), c.ids)[i - 1], 8);
        }
    }
    lemma_flat_uniform_at(parts, 8, k);
    lemma_nested(image(c), 0, flat(parts), 8 * k, 8);
    assert(parts[k] == le(w, 8));
    lemma_limits();
    law_le_round_trip(w, 8);
}

proof fn lemma_magic(c: Contents)
    ensures
        image(c).len() >= HEADER_LEN,
        image(c).take(8) == magic(),
        image(c).take(7) == magic().take(7),
        number_at(image(c), 8, 4) == VERSION,
{
    let parts = header_parts(sizes(c), c.ids);
    lemma_section(c, 0);
    lemma_rows(c);
    assert forall|i: int| 0 <= i < parts.len() implies (#[trigger] parts[i]).len() == 8 by {
        if i > 0 {
            lemma_le_len(header_words(sizes(c), c.ids)[i - 1], 8);
        }
    }
    lemma_flat_uniform_at(parts, 8, 0);
    lemma_nested(image(c), 0, flat(parts), 0, 8);
    assert(image(c).take(8) =~= image(c).subrange(0, 8));
    assert(image(c).take(7) =~= image(c).take(8).take(7));
    lemma_header_word(c, 1);
    let w = image(c).subrange(8, 16);
    assert(w == le(3, 8));
    assert(image(c).subrange(8, 12) =~= w.subrange(0, 4));
    assert(w.subrange(0, 4) =~= seq![3u8, 0, 0, 0]) by {
        reveal_with_fuel(le, 9);
    }
    assert(from_le(seq![3u8, 0, 0, 0]) == 3) by {
        let s = seq![3u8, 0, 0, 0];
        assert(s.drop_first() =~= seq![0u8, 0, 0]);
        assert(seq![0u8, 0, 0].drop_first() =~= seq![0u8, 0]);
        assert(seq![0u8, 0].drop_first() =~= seq![0u8]);
        assert(seq![0u8].drop_first() =~= Seq::<u8>::empty());
        assert(from_le(Seq::<u8>::empty()) == 0);
        assert(from_le(seq![0u8]) == 0);
        assert(from_le(seq![0u8, 0]) == 0);
        assert(from_le(seq![0u8, 0, 0]) == 0);
    }
}

proof fn lemma_scan_always_len(files: Seq<Entry>, n: int)
    requires
        0 <= n,
    ensures
        scan_always(files, n).len() <= n,
    decreases n,
{
    if n > 0 {
        lemma_scan_always_len(files, n - 1);
    }
}

/// The lists of writable contents take a bounded number of bytes.
proof fn lemma_lists_bound(lists: Seq<(u32, Listing)>, file_count: nat, n: int)
    requires
        0 <= n <= lists.len(),
        lists_rejected(lists, file_count, n) is None,
    ensures
        n <= u32::MAX,
        flat(list_parts(lists.take(n), file_count)).len() < WORD_LIMIT,
        forall|i: int|
            0 <= i < n ==> list_rejected(
                (#[trigger] lists[i]).1,
                file_count,
                i as nat,
                flat(list_parts(lists.take(i), file_count)).len(),
            ) is None,
    decreases n,
{
    if n > 0 {
        lemma_lists_bound(lists, file_count, n - 1);
        let parts = list_parts(lists.take(n), file_count);
        assert(parts.drop_last() =~= list_parts(lists.take(n - 1), file_count));
    } else {
        assert(list_parts(lists.take(0), file_count) =~= Seq::<Seq<u8>>::empty());
    }
}

/// The header gives back the layout.
proof fn lemma_layout(c: Contents)
    requires
        writable(c),
    ensures
        layout_of(image(c)) == (Layout {
            file_count: c.files.len(),
            tri_count: c.lists.len(),
            file_table_off: files_off(sizes(c)),
            paths_off: paths_off(sizes(c)),
            paths_len: sizes(c).paths,
            tri_table_off: lists_off(sizes(c)),
            postings_off: postings_off(sizes(c)),
            postings_len: sizes(c).postings,
            root_off: HEADER_LEN as nat,
            root_len: sizes(c).root,
            scan_always_off: scan_always_off(sizes(c)),
            scan_always_count: sizes(c).scan_always,
            tombstones_off: tombstones_off(sizes(c)),
            tombstones_count: c.tombstones.len(),
            build_id: c.ids.build_id as nat,
            parent_id: c.ids.parent_id as nat,
        }),
        c.lists.len() <= u32::MAX,
        sizes(c).scan_always <= c.files.len(),
{
    lemma_scan_always_len(c.files, c.files.len() as int);
    lemma_lists_bound(c.lists, c.files.len(), c.lists.len() as int);
    assert(c.lists.take(c.lists.len() as int) =~= c.lists);
    lemma_header_word(c, 2);
    lemma_header_word(c, 3);
    lemma_header_word(c, 4);
    lemma_header_word(c, 5);
    lemma_header_word(c, 6);
    lemma_header_word(c, 7);
    lemma_header_word(c, 8);
    lemma_header_word(c, 9);
    lemma_header_word(c, 10);
    lemma_header_word(c, 11);
    lemma_header_word(c, 12);
    lemma_header_word(c, 13);
    lemma_header_word(c, 14);
    lemma_header_word(c, 15);
    lemma_header_word(c, 16);
    lemma_header_word(c, 17);
}

/// A written index opens, with its root, its counts and its ids.
pub proof fn law_written_index_opens(c: Contents)
    requires
        writable(c),
    ensures
        opened(image(c)) == Ok::<Layout, Fault>(layout_of(image(c))),
        root_of(image(c), layout_of(image(c))) == c.root,
        layout_of(image(c)).file_count == c.files.len(),
        layout_of(image(c)).tri_count == c.lists.len(),
        layout_of(image(c)).build_id == c.ids.build_id,
        layout_of(image(c)).parent_id == c.ids.parent_id,
{
    lemma_magic(c);
    lemma_layout(c);
    lemma_section(c, 1);
    lemma_section(c, 7);
    encode_utf8_valid_utf8(c.root);
    encode_utf8_decode_utf8(c.root);
}

proof fn lemma_ids_back(c: Contents, k: int, ids: Seq<u32>)
    requires
        0 <= k < 8,
        sections(c)[k] == flat(id_rows(ids)),
    ensures
        ids_at(image(c), section_off(sizes(c), k), ids.len()) == ids,
{
    let b = image(c);
    let off = section_off(sizes(c), k) as int;
    lemma_section(c, k);
    lemma_id_rows(ids);
    assert forall|i: int| 0 <= i < ids.len() implies #[trigger] ids_at(b, off as nat, ids.len())[i]
        == ids[i] by {
        lemma_flat_uniform_at(id_rows(ids), 4, i);
        lemma_nested(b, off, flat(id_rows(ids)), 4 * i, 4);
        assert(id_rows(ids)[i] == le(ids[i] as nat, 4));
        lemma_limits();
        law_le_round_trip(ids[i] as nat, 4);
    }
    assert(ids_at(b, off as nat, ids.len()) =~= ids);
}

/// A written index gives back its scan-always ids and its tombstones.
pub proof fn law_written_ids_read_back(c: Contents)
    requires
        writable(c),
    ensures
        ({
            let b = image(c);
            let l = layout_of(b);
            &&& ids_at(b, l.scan_always_off, l.scan_always_count) == scan_always(
                c.files,
                c.files.len() as int,
            )
            &&& ids_at(b, l.tombstones_off, l.tombstones_count) == c.tombstones
        }),
{
    lemma_layout(c);
    lemma_ids_back(c, 4, scan_always(c.files, c.files.len() as int));
    lemma_ids_back(c, 5, c.tombstones);
}

/// A written index gives back each of its files.
pub proof fn law_written_file_reads_back(c: Contents, id: int)
    requires
        writable(c),
        0 <= id < c.files.len(),
    ensures
        file_at(image(c), layout_of(image(c)), id as nat) == Ok::<Entry, Fault>(c.files[id]),
{
    let b = image(c);
    let z = sizes(c);
    let f = c.files[id];
    let rows = file_rows(c.files);
    let parts = path_parts(c.files);
    let row = rows[id];
    let e = files_off(z) + 28 * id;
    lemma_layout(c);
    lemma_rows(c);
    lemma_section(c, 2);
    lemma_section(c, 3);
    lemma_flat_uniform_at(rows, 28, id);
    lemma_nested(b, files_off(z) as int, flat(rows), 28 * id, 28);
    assert(b.subrange(e, e + 28) == row);
    lemma_flat_at(parts, id);
    lemma_flat_push(parts, id);
    let at = flat(parts.take(id)).len();
    let len = parts[id].len();
    lemma_limits();
    law_le_round_trip(at, 4);
    law_le_round_trip(len, 4);
    law_le_round_trip(f.size as nat, 8);
    law_le_round_trip(f.mtime as nat, 8);
    law_le_round_trip(f.flags as nat, 4);
    lemma_nested(b, e, row, 0, 4);
    lemma_nested(b, e, row, 4, 4);
    lemma_nested(b, e, row, 8, 8);
    lemma_nested(b, e, row, 16, 8);
    lemma_nested(b, e, row, 24, 4);
    assert(row.subrange(0, 4) =~= le(at, 4));
    assert(row.subrange(4, 8) =~= le(len, 4));
    assert(row.subrange(8, 16) =~= le(f.size as nat, 8));
    assert(row.subrange(16, 24) =~= le(f.mtime as nat, 8));
    assert(row.subrange(24, 28) =~= le(f.flags as nat, 4));
    lemma_nested(b, paths_off(z) as int, flat(parts), at as int, len as int);
    encode_utf8_valid_utf8(f.path);
    encode_utf8_decode_utf8(f.path);
}

/// The fields of trigram entry `i`, and where its list stands.
proof fn lemma_tri_entry(c: Contents, i: int)
    requires
        writable(c),
        0 <= i < c.lists.len(),
    ensures
        ({
            let b = image(c);
            let n = c.files.len();
            let e = lists_off(sizes(c)) + 16 * i;
            let parts = list_parts(c.lists, n);
            let off = flat(parts.take(i)).len();
            let from = (postings_off(sizes(c)) + off) as int;
            &&& list_rejected(c.lists[i].1, n, i as nat, off) is None
            &&& number_at(b, e, 4) == c.lists[i].0
            &&& number_at(b, e + 4, 4) == parts[i].len()
            &&& number_at(b, e + 8, 8) == list_word(c.lists[i].1, off, n)
            &&& from + parts[i].len() <= b.len()
            &&& b.subrange(from, from + parts[i].len()) == parts[i]
        }),
{
    let b = image(c);
    let z = sizes(c);
    let n = c.files.len();
    let rows = tri_rows(c.lists, n);
    let parts = list_parts(c.lists, n);
    let row = rows[i];
    let (key, list) = c.lists[i];
    let e = lists_off(z) + 16 * i;
    lemma_rows(c);
    lemma_section(c, 6);
    lemma_section(c, 7);
    lemma_flat_uniform_at(rows, 16, i);
    lemma_nested(b, lists_off(z) as int, flat(rows), 16 * i, 16);
    assert(b.subrange(e, e + 16) == row);
    lemma_lists_bound(c.lists, n, c.lists.len() as int);
    assert(list_parts(c.lists.take(i), n) =~= parts.take(i));
    let off = flat(parts.take(i)).len();
    let len = parts[i].len();
    let word = list_word(list, off, n);
    assert(list_rejected(c.lists[i].1, n, i as nat, off) is None);
    lemma_flat_at(parts, i);
    lemma_limits();
    law_le_round_trip(key as nat, 4);
    law_le_round_trip(len, 4);
    law_le_round_trip(word, 8);
    lemma_nested(b, e, row, 0, 4);
    lemma_nested(b, e, row, 4, 4);
    lemma_nested(b, e, row, 8, 8);
    assert(row.subrange(0, 4) =~= le(key as nat, 4));
    assert(row.subrange(4, 8) =~= le(len, 4));
    assert(row.subrange(8, 16) =~= le(word, 8));
    lemma_nested(b, postings_off(z) as int, flat(parts), off as int, len as int);
}

proof fn lemma_word(list: Listing, off: nat, n: nat)
    requires
        off < WORD_LIMIT,
        list_count(list) < WORD_LIMIT,
    ensures
        tagged(list_word(list, off, n) / (WORD_LIMIT as nat)) == list_encoding(list, n),
        list_word(list, off, n) % (WORD_LIMIT as nat) == if list_encoding(list, n)
            == Encoding::Dense {
            list_count(list)
        } else {
            off
        },
{
}

/// A written index gives back each of its keys with what is kept of its list.
pub proof fn law_written_list_reads_back(c: Contents, i: int)
    requires
        writable(c),
        0 <= i < c.lists.len(),
    ensures
        keys_of(image(c), layout_of(image(c)))[i] == c.lists[i].0,
        list_at(image(c), layout_of(image(c)), i) == Ok::<Listing, Fault>(
            kept(c.lists[i].1, c.files.len()),
        ),
{
    let n = c.files.len();
    let list = c.lists[i].1;
    let off = flat(list_parts(c.lists, n).take(i)).len();
    lemma_layout(c);
    lemma_tri_entry(c, i);
    lemma_word(list, off, n);
    law_list_round_trip(list, n);
}

/// Whether keys are strictly ascending.
pub open spec fn keys_ascending(lists: Seq<(u32, Listing)>) -> bool {
    forall|i: int, j: int| 0 <= i < j < lists.len() ==> (#[trigger] lists[i]).0 < (#[trigger] lists[j]).0
}

/// In ascending keys, halving meets a key exactly where it is.
pub proof fn lemma_probe(keys: Seq<u32>, key: u32, lo: int, hi: int)
    requires
        0 <= lo <= hi <= keys.len(),
        forall|i: int, j: int| 0 <= i < j < keys.len() ==> keys[i] < keys[j],
    ensures
        match probe(keys, key, lo, hi) {
            Some(i) => lo <= i < hi && keys[i] == key,
            None => forall|i: int| lo <= i < hi ==> keys[i] != key,
        },
    decreases hi - lo,
{
    if lo < hi {
        let mid = (lo + hi) / 2;
        if keys[mid] < key {
            lemma_probe(keys, key, mid + 1, hi);
        } else if keys[mid] > key {
            lemma_probe(keys, key, lo, mid);
        }
    }
}

proof fn lemma_lookup(
    b: Seq<u8>,
    l: Layout,
    lists: Seq<(u32, Listing)>,
    file_count: nat,
    key: u32,
)
    requires
        keys_ascending(lists),
        l.tri_count == lists.len(),
        forall|i: int|
            0 <= i < lists.len() ==> keys_of(b, l)[i] == (#[trigger] lists[i]).0 && list_at(b, l, i)
                == Ok::<Listing, Fault>(kept(lists[i].1, file_count)),
    ensures
        forall|i: int|
            0 <= i < lists.len() && (#[trigger] lists[i]).0 == key ==> list_of(b, l, key) == Ok::<
                Listing,
                Fault,
            >(kept(lists[i].1, file_count)),
        (forall|i: int| 0 <= i < lists.len() ==> (#[trigger] lists[i]).0 != key) ==> list_of(
            b,
            l,
            key,
        ) == Ok::<Listing, Fault>(Listing::Ids(Seq::empty())),
{
    let keys = keys_of(b, l);
    assert(keys.len() == lists.len());
    assert forall|i: int, j: int| 0 <= i < j < keys.len() implies keys[i] < keys[j] by {
        assert(lists[i].0 < lists[j].0);
    }
    lemma_probe(keys, key, 0, keys.len() as int);
    match probe(keys, key, 0, keys.len() as int) {
        Some(i) => {
            assert(lists[i].0 == key);
            assert forall|j: int| 0 <= j < lists.len() && (#[trigger] lists[j]).0
                == key implies j == i by {
                assert(keys[j] == keys[i]);
            }
        },
        None => {
            assert forall|j: int| 0 <= j < lists.len() implies (#[trigger] lists[j]).0 != key by {
                assert(keys[j] != key);
            }
        },
    }
}

/// Looking a trigram up in a written index with ascending keys gives what is
/// kept of its list, and no files for a trigram that was not written.
pub proof fn law_lookup_after_write(c: Contents, key: u32)
    requires
        writable(c),
        keys_ascending(c.lists),
    ensures
        forall|i: int|
            0 <= i < c.lists.len() && (#[trigger] c.lists[i]).0 == key ==> list_of(
                image(c),
                layout_of(image(c)),
                key,
            ) == Ok::<Listing, Fault>(kept(c.lists[i].1, c.files.len())),
        (forall|i: int| 0 <= i < c.lists.len() ==> (#[trigger] c.lists[i]).0 != key) ==> list_of(
            image(c),
            layout_of(image(c)),
            key,
        ) == Ok::<Listing, Fault>(Listing::Ids(Seq::empty())),
{
    law_written_index_opens(c);
    assert forall|i: int| 0 <= i < c.lists.len() implies keys_of(image(c), layout_of(image(c)))[i]
        == (#[trigger] c.lists[i]).0 && list_at(image(c), layout_of(image(c)), i) == Ok::<
        Listing,
        Fault,
    >(kept(c.lists[i].1, c.files.len())) by {
        law_written_list_reads_back(c, i);
    }
    lemma_lookup(image(c), layout_of(image(c)), c.lists, c.files.len(), key);
}

/// A written index begins with its magic and version, and its header says how
/// many files and trigrams it holds, which build it is and which it belongs
/// to, and where its root stands.
pub proof fn law_header_says_what_the_file_holds(c: Contents)
    requires
        writable(c),
    ensures
        ({
            let b = image(c);
            let root = encode_utf8(c.root);
            &&& b.len() >= 160 + root.len()
            &&& b.take(8) == seq![71u8, 82, 73, 88, 73, 68, 88, 51]
            &&& number_at(b, 8, 8) == 3
            &&& number_at(b, 16, 8) == c.files.len()
            &&& number_at(b, 24, 8) == c.lists.len()
            &&& number_at(b, 80, 8) == 160 && number_at(b, 88, 8) == root.len()
            &&& b.subrange(160, (160 + root.len()) as int) == root
            &&& number_at(b, 128, 8) == c.ids.build_id
            &&& number_at(b, 136, 8) == c.ids.parent_id
        }),
{
    lemma_magic(c);
    lemma_layout(c);
    lemma_header_word(c, 1);
    lemma_section(c, 1);
}

/// An index file opens only where it is of this format, and whole: each of its
/// sections lies in the file.
pub proof fn law_opened_index_is_whole(b: Seq<u8>)
    requires
        opened(b) is Ok,
    ensures
        b.len() >= 160,
        b.take(8) == seq![71u8, 82, 73, 88, 73, 68, 88, 51],
        number_at(b, 8, 4) == 3,
        number_at(b, 32, 8) + 28 * number_at(b, 16, 8) <= b.len(),
        number_at(b, 56, 8) + 16 * number_at(b, 24, 8) <= b.len(),
        number_at(b, 40, 8) + number_at(b, 48, 8) <= b.len(),
        number_at(b, 64, 8) + number_at(b, 72, 8) <= b.len(),
        number_at(b, 80, 8) + number_at(b, 88, 8) <= b.len(),
        number_at(b, 96, 8) + 4 * number_at(b, 104, 8) <= b.len(),
        number_at(b, 112, 8) + 4 * number_at(b, 120, 8) <= b.len(),
{
}

} // verus!
