//! Writing index files.

use crate::bytes::{flat, le, lemma_flat_push, push_bytes, push_u32, push_u64};
use crate::index::format::{FileRecord, IndexError};
use crate::index::image::{
    file_row, file_rows, header_parts, header_words, id_rows, image, list_parts, list_word,
    lists_rejected, magic, oversized, path_parts, postings_off, scan_always, sections, sizes,
    tri_row, tri_rows, written, Contents, Entry, Fault, IndexIds, Sizes, FLAG_SCAN_ALWAYS,
    HEADER_LEN, VERSION, WORD_LIMIT,
};
use crate::index::postings::{encode_list, list_bytes, Encoding, Listing, Postings};
use vstd::prelude::*;
use vstd::utf8::encode_utf8;

verus! {

/// The views of records.
pub open spec fn entries(files: Seq<FileRecord>) -> Seq<Entry> {
    Seq::new(files.len(), |i: int| files[i]@)
}

/// Streaming source of postings for `write_index`: yields each trigram key
/// with its sorted, deduplicated file ids, keys strictly ascending.
pub trait PostingsSource {
    /// What is still to come.
    spec fn lists(&self) -> Seq<(u32, Listing)>;

    /// The fault that ends it, if any.
    spec fn fault(&self) -> Option<Fault>;

    /// Whether the source is well-formed.
    spec fn wf(&self) -> bool;

    fn next(&mut self) -> (r: Result<Option<(u32, Postings)>, IndexError>)
        requires
            old(self).wf(),
        ensures
            match r {
                Ok(Some((key, list))) => old(self).lists().len() > 0 && old(self).lists()[0] == (
                    key,
                    list@,
                ) && final(self).lists() == old(self).lists().drop_first() && final(self).fault()
                    == old(self).fault() && final(self).wf(),
                Ok(None) => old(self).lists().len() == 0 && old(self).fault() is None,
                Err(e) => old(self).lists().len() == 0 && old(self).fault() == Some(e.fault()),
            },
    ;
}

/// Adapter for in-memory (key, ids) sequences (tests, tiny builds).
pub struct VecPostings {
    /// What is still to come, last first.
    rest: Vec<(u32, Vec<u32>)>,
}

impl VecPostings {
    /// What the source holds still.
    pub closed spec fn items(&self) -> Seq<(u32, Vec<u32>)> {
        self.rest@.reverse()
    }

    pub fn new(items: Vec<(u32, Vec<u32>)>) -> (r: VecPostings)
        ensures
            r.items() == items@,
            r.lists() == id_lists(items@),
            r.fault() is None,
            r.wf(),
    {
        let ghost all = items@;
        let mut items = items;
        let mut rest: Vec<(u32, Vec<u32>)> = Vec::new();
        let n: usize = items.len();
        for k in 0..n
            invariant
                n == all.len(),
                items@ == all.take(n - k),
                rest@ == all.skip(n - k).reverse(),
        {
            match items.pop() {
                Some(x) => {
                    rest.push(x);
                    assert(rest@ =~= all.skip(n - k - 1).reverse());
                    assert(items@ =~= all.take(n - k - 1));
                },
                None => {},
            }
        }
        assert(rest@.reverse() =~= all);
        let r = VecPostings { rest };
        assert(r.lists() =~= id_lists(all));
        r
    }
}

/// Lists of ids.
pub open spec fn id_lists(items: Seq<(u32, Vec<u32>)>) -> Seq<(u32, Listing)> {
    Seq::new(items.len(), |i: int| (items[i].0, Listing::Ids(items[i].1@)))
}

impl PostingsSource for VecPostings {
    open spec fn lists(&self) -> Seq<(u32, Listing)> {
        id_lists(self.items())
    }

    open spec fn fault(&self) -> Option<Fault> {
        None
    }

    open spec fn wf(&self) -> bool {
        true
    }

    fn next(&mut self) -> (r: Result<Option<(u32, Postings)>, IndexError>) {
        let ghost before = self.rest@;
        match self.rest.pop() {
            None => {
                assert(self.lists() =~= id_lists(before.reverse()));
                Ok(None)
            },
            Some((key, ids)) => {
                assert(before.reverse()[0] == before.last());
                assert(self.rest@.reverse() =~= before.reverse().drop_first());
                assert(self.lists() =~= id_lists(before.reverse()).drop_first());
                Ok(Some((key, Postings::Ids(ids))))
            },
        }
    }
}

/// The trigram table of an index in the making. The bytes of the lists go
/// out one by one, so only the table is kept in memory.
pub struct IndexWriter {
    file_count: usize,
    table: Vec<u8>,
    count: u64,
    post_len: u64,
    lists: Ghost<Seq<(u32, Listing)>>,
}

impl IndexWriter {
    pub closed spec fn files(&self) -> nat {
        self.file_count as nat
    }

    /// The lists that were added.
    pub closed spec fn lists(&self) -> Seq<(u32, Listing)> {
        self.lists@
    }

    /// Whether the table holds the lists that were added.
    pub closed spec fn wf(&self) -> bool {
        let parts = list_parts(self.lists@, self.file_count as nat);
        &&& self.table@ == flat(tri_rows(self.lists@, self.file_count as nat))
        &&& self.count == self.lists@.len()
        &&& self.count <= u32::MAX
        &&& self.post_len == flat(parts).len()
        &&& self.post_len < WORD_LIMIT
        &&& lists_rejected(
            self.lists@,
            self.file_count as nat,
            self.lists@.len() as int,
        ) is None
    }

    pub fn new(file_count: usize) -> (r: IndexWriter)
        ensures
            r.wf(),
            r.files() == file_count,
            r.lists() == Seq::<(u32, Listing)>::empty(),
    {
        let r = IndexWriter {
            file_count,
            table: Vec::new(),
            count: 0,
            post_len: 0,
            lists: Ghost(Seq::empty()),
        };
        assert(r.table@ =~= flat(tri_rows(Seq::empty(), file_count as nat)));
        r
    }

    /// Adds the list of a trigram; its bytes go behind those of the lists
    /// before it.
    pub fn add(&mut self, key: u32, list: &Postings) -> (r: Result<Vec<u8>, IndexError>)
        requires
            old(self).wf(),
        ensures
            final(self).wf(),
            final(self).files() == old(self).files(),
            ({
                let all = old(self).lists().push((key, list@));
                match (r, lists_rejected(all, old(self).files(), all.len() as int)) {
                    (Ok(bytes), None) => bytes@ == list_bytes(list@, old(self).files()) && final(self).lists() == all,
                    (Err(e), Some(what)) => e.fault() == Fault::Corrupt(what) && final(self).lists()
                        == old(self).lists(),
                    _ => false,
                }
            }),
    {
        let ghost lists = self.lists@;
        let ghost n = self.file_count as nat;
        let ghost all = lists.push((key, list@));
        proof {
            assert(all.take(lists.len() as int) =~= lists);
            lemma_rejected_prefix(all, lists, n, lists.len() as int);
        }
        let (encoding, bytes) = match encode_list(list, self.file_count) {
            Some(x) => x,
            None => {
                return Err(IndexError::Corrupt("postings not ascending"));
            },
        };
        let len: usize = bytes.len();
        let count: u64 = match list {
            Postings::Dense(df) => *df,
            Postings::Ids(ids) => ids.len() as u64,
        };
        if self.count >= u32::MAX as u64 || len as u64 > u32::MAX as u64 || len as u64 >= WORD_LIMIT
            - self.post_len || count >= WORD_LIMIT {
            return Err(IndexError::Corrupt("index too large"));
        }
        let word: u64 = match encoding {
            Encoding::Varint => self.post_len,
            Encoding::Bitmap => WORD_LIMIT + self.post_len,
            Encoding::Dense => 2 * WORD_LIMIT + count,
        };
        let ghost before = self.table@;
        push_u32(&mut self.table, key);
        push_u32(&mut self.table, len as u32);
        push_u64(&mut self.table, word);
        proof {
            let off = flat(list_parts(lists, n)).len();
            assert(list_parts(all, n).take(lists.len() as int) =~= list_parts(lists, n));
            assert(word == list_word(list@, off, n));
            let row = tri_row(all, n, lists.len() as int);
            assert(self.table@ =~= before + row);
            assert forall|i: int| 0 <= i < lists.len() implies tri_row(all, n, i) == tri_row(
                lists,
                n,
                i,
            ) by {
                assert(list_parts(all, n).take(i) =~= list_parts(lists, n).take(i));
            }
            assert(tri_rows(all, n).drop_last() =~= tri_rows(lists, n));
            assert(tri_rows(all, n).last() == row);
            assert(list_parts(all, n).drop_last() =~= list_parts(lists, n));
        }
        self.count = self.count + 1;
        self.post_len = self.post_len + len as u64;
        self.lists = Ghost(all);
        Ok(bytes)
    }
}

proof fn lemma_rejected_prefix(
    all: Seq<(u32, Listing)>,
    front: Seq<(u32, Listing)>,
    file_count: nat,
    n: int,
)
    requires
        0 <= n <= front.len(),
        front.len() <= all.len(),
        all.take(front.len() as int) == front,
    ensures
        lists_rejected(all, file_count, n) == lists_rejected(front, file_count, n),
    decreases n,
{
    if n > 0 {
        lemma_rejected_prefix(all, front, file_count, n - 1);
        assert(all.take(n - 1) =~= front.take(n - 1));
        assert(all.take(front.len() as int)[n - 1] == all[n - 1]);
    }
}

proof fn lemma_rejected_stays(all: Seq<(u32, Listing)>, file_count: nat, n: int, m: int)
    requires
        0 <= n <= m,
        lists_rejected(all, file_count, n) is Some,
    ensures
        lists_rejected(all, file_count, m) == lists_rejected(all, file_count, n),
    decreases m,
{
    if n < m {
        lemma_rejected_stays(all, file_count, n, m - 1);
    }
}

/// The total length of the paths, if it fits the format.
fn paths_len(files: &Vec<FileRecord>) -> (r: Option<u64>)
    ensures
        match r {
            Some(n) => n == flat(path_parts(entries(files@))).len() && n <= u32::MAX,
            None => flat(path_parts(entries(files@))).len() > u32::MAX,
        },
{
    let ghost parts = path_parts(entries(files@));
    let mut n: u64 = 0;
    assert(flat(parts.take(0)).len() == 0);
    for i in 0..files.len()
        invariant
            parts == path_parts(entries(files@)),
            n == flat(parts.take(i as int)).len(),
            n <= u32::MAX,
    {
        proof {
            lemma_flat_push(parts, i as int);
            if i + 1 < parts.len() {
                lemma_flat_push(parts, i + 1);
            } else {
                assert(parts.take(i + 1) =~= parts);
            }
        }
        let len: usize = files[i].rel_path.as_str().as_bytes().len();
        assert(len == parts[i as int].len());
        if len as u64 > u32::MAX as u64 - n {
            return None;
        }
        n = n + len as u64;
    }
    assert(parts.take(files@.len() as int) =~= parts);
    Some(n)
}

/// The ids of files that a search must always scan.
fn scan_always_of(files: &Vec<FileRecord>) -> (r: Vec<u32>)
    requires
        files@.len() <= u32::MAX,
    ensures
        r@ == scan_always(entries(files@), files@.len() as int),
        r@.len() <= files@.len(),
{
    let mut r: Vec<u32> = Vec::new();
    for i in 0..files.len()
        invariant
            files@.len() <= u32::MAX,
            r@ == scan_always(entries(files@), i as int),
            r@.len() <= i,
    {
        assert(entries(files@)[i as int].flags == files@[i as int].flags);
        if files[i].flags & FLAG_SCAN_ALWAYS != 0 {
            r.push(i as u32);
        }
    }
    r
}

fn push_ids(out: &mut Vec<u8>, ids: &Vec<u32>)
    ensures
        final(out)@ == old(out)@ + flat(id_rows(ids@)),
{
    let ghost before = out@;
    let ghost rows = id_rows(ids@);
    assert(out@ =~= before + flat(rows.take(0)));
    for i in 0..ids.len()
        invariant
            rows == id_rows(ids@),
            out@ == before + flat(rows.take(i as int)),
    {
        proof {
            lemma_flat_push(rows, i as int);
        }
        let ghost now = out@;
        push_u32(out, ids[i]);
        assert(out@ =~= before + flat(rows.take(i as int + 1)));
    }
    assert(rows.take(ids@.len() as int) =~= rows);
}

fn push_header(out: &mut Vec<u8>, words: &Vec<u64>, Ghost(z): Ghost<Sizes>, ids: IndexIds)
    requires
        words@.len() == 19,
        forall|i: int| 0 <= i < 19 ==> words@[i] as nat == #[trigger] header_words(z, ids)[i],
    ensures
        final(out)@ == old(out)@ + flat(header_parts(z, ids)),
{
    let ghost before = out@;
    let ghost parts = header_parts(z, ids);
    let m: Vec<u8> = vec![71, 82, 73, 88, 73, 68, 88, 51];
    assert(m@ =~= magic());
    push_bytes(out, m.as_slice());
    proof {
        lemma_flat_push(parts, 0);
        assert(parts.take(0) =~= Seq::<Seq<u8>>::empty());
        assert(parts[0] == magic());
        assert(out@ =~= before + flat(parts.take(1)));
    }
    for i in 0..words.len()
        invariant
            words@.len() == 19,
            forall|k: int| 0 <= k < 19 ==> words@[k] as nat == #[trigger] header_words(z, ids)[k],
            parts == header_parts(z, ids),
            out@ == before + flat(parts.take(i as int + 1)),
    {
        proof {
            lemma_flat_push(parts, i as int + 1);
            assert(parts[i as int + 1] == le(header_words(z, ids)[i as int], 8));
        }
        let ghost now = out@;
        push_u64(out, words[i]);
        assert(out@ =~= before + flat(parts.take(i as int + 2)));
    }
    assert(parts.take(20) =~= parts);
}

fn push_paths(out: &mut Vec<u8>, files: &Vec<FileRecord>)
    ensures
        final(out)@ == old(out)@ + flat(path_parts(entries(files@))),
{
    let ghost before = out@;
    let ghost parts = path_parts(entries(files@));
    assert(out@ =~= before + flat(parts.take(0)));
    for i in 0..files.len()
        invariant
            parts == path_parts(entries(files@)),
            out@ == before + flat(parts.take(i as int)),
    {
        proof {
            lemma_flat_push(parts, i as int);
        }
        let ghost now = out@;
        assert(parts[i as int] == encode_utf8(files@[i as int].rel_path@));
        push_bytes(out, files[i].rel_path.as_str().as_bytes());
        assert(out@ =~= before + flat(parts.take(i as int + 1)));
    }
    assert(parts.take(files@.len() as int) =~= parts);
}

fn push_files(out: &mut Vec<u8>, files: &Vec<FileRecord>)
    requires
        flat(path_parts(entries(files@))).len() <= u32::MAX,
    ensures
        final(out)@ == old(out)@ + flat(file_rows(entries(files@))),
{
    let ghost before = out@;
    let ghost all = entries(files@);
    let ghost parts = path_parts(all);
    let ghost rows = file_rows(all);
    let mut off: u32 = 0;
    assert(flat(parts.take(0)).len() == 0);
    assert(out@ =~= before + flat(rows.take(0)));
    for i in 0..files.len()
        invariant
            all == entries(files@),
            parts == path_parts(all),
            rows == file_rows(all),
            flat(parts).len() <= u32::MAX,
            off == flat(parts.take(i as int)).len(),
            out@ == before + flat(rows.take(i as int)),
    {
        proof {
            lemma_flat_push(rows, i as int);
            lemma_flat_push(parts, i as int);
            if i + 1 < parts.len() {
                lemma_flat_push(parts, i + 1);
            } else {
                assert(parts.take(i + 1) =~= parts);
            }
        }
        let file = &files[i];
        let len: usize = file.rel_path.as_str().as_bytes().len();
        assert(len == parts[i as int].len());
        let ghost now = out@;
        push_u32(out, off);
        push_u32(out, len as u32);
        push_u64(out, file.size);
        push_u64(out, file.mtime);
        push_u32(out, file.flags);
        assert(all[i as int] == file@);
        assert(out@ =~= now + file_row(all, i as int));
        assert(out@ =~= before + flat(rows.take(i as int + 1)));
        off = off + len as u32;
    }
    assert(rows.take(files@.len() as int) =~= rows);
}

impl IndexWriter {
    /// Everything that goes before the lists' bytes.
    pub fn head(
        &self,
        root: &str,
        files: &Vec<FileRecord>,
        tombstones: &Vec<u32>,
        ids: IndexIds,
    ) -> (r: Result<Vec<u8>, IndexError>)
        requires
            self.wf(),
            files@.len() == self.files(),
        ensures
            ({
                let c = Contents {
                    root: root@,
                    files: entries(files@),
                    lists: self.lists(),
                    tombstones: tombstones@,
                    ids,
                };
                match r {
                    Ok(bytes) => !oversized(c) && bytes@ + flat(
                        list_parts(self.lists(), self.files()),
                    ) == image(c),
                    Err(e) => oversized(c) && e.fault() == Fault::Corrupt("index too large"@),
                }
            }),
    {
        let ghost c = Contents {
            root: root@,
            files: entries(files@),
            lists: self.lists@,
            tombstones: tombstones@,
            ids,
        };
        let ghost z = sizes(c);
        let root_len: usize = root.as_bytes().len();
        assert(root_len == z.root);
        if files.len() as u64 > u32::MAX as u64 {
            return Err(IndexError::Corrupt("index too large"));
        }
        let paths_len: u64 = match paths_len(files) {
            Some(n) => n,
            None => {
                return Err(IndexError::Corrupt("index too large"));
            },
        };
        let scan = scan_always_of(files);
        let whole: u128 = HEADER_LEN as u128 + root_len as u128 + paths_len as u128 + 28 * (
        files.len() as u128) + 4 * (scan.len() as u128) + 4 * (tombstones.len() as u128) + 16 * (
        self.count as u128) + self.post_len as u128;
        assert(whole == postings_off(z) + z.postings);
        if whole > u64::MAX as u128 {
            return Err(IndexError::Corrupt("index too large"));
        }

        // Lay out variable sections (all lengths are known now).
        let root_len: u64 = root_len as u64;
        let paths_at: u64 = HEADER_LEN as u64 + root_len;
        let files_at: u64 = paths_at + paths_len;
        let scan_at: u64 = files_at + 28 * (files.len() as u64);
        let tombs_at: u64 = scan_at + 4 * (scan.len() as u64);
        let lists_at: u64 = tombs_at + 4 * (tombstones.len() as u64);
        let postings_at: u64 = lists_at + 16 * self.count;
        let words: Vec<u64> = vec![
            VERSION as u64,
            files.len() as u64,
            self.count,
            files_at,
            paths_at,
            paths_len,
            lists_at,
            postings_at,
            self.post_len,
            HEADER_LEN as u64,
            root_len,
            scan_at,
            scan.len() as u64,
            tombs_at,
            tombstones.len() as u64,
            ids.build_id,
            ids.parent_id,
            0,
            0,
        ];
        assert forall|i: int| 0 <= i < 19 implies words@[i] as nat == #[trigger] header_words(
            z,
            ids,
        )[i] by {}
        let mut out: Vec<u8> = Vec::new();
        push_header(&mut out, &words, Ghost(z), ids);
        let ghost s = sections(c);
        assert(out@ =~= s[0]);
        push_bytes(&mut out, root.as_bytes());
        push_paths(&mut out, files);
        push_files(&mut out, files);
        push_ids(&mut out, &scan);
        push_ids(&mut out, tombstones);
        push_bytes(&mut out, self.table.as_slice());
        proof {
            assert(out@ =~= s[0] + s[1] + s[2] + s[3] + s[4] + s[5] + s[6]);
            lemma_eight(s);
        }
        Ok(out)
    }
}

proof fn lemma_eight(s: Seq<Seq<u8>>)
    requires
        s.len() == 8,
    ensures
        flat(s) == s[0] + s[1] + s[2] + s[3] + s[4] + s[5] + s[6] + s[7],
{
    let e = Seq::<u8>::empty();
    assert(s.take(0) =~= Seq::<Seq<u8>>::empty());
    lemma_flat_push(s, 0);
    lemma_flat_push(s, 1);
    lemma_flat_push(s, 2);
    lemma_flat_push(s, 3);
    lemma_flat_push(s, 4);
    lemma_flat_push(s, 5);
    lemma_flat_push(s, 6);
    lemma_flat_push(s, 7);
    assert(s.take(8) =~= s);
    assert(e + s[0] =~= s[0]);
}

/// Write a complete index: the bytes of its file.
pub fn write_index<S: PostingsSource>(
    root: &str,
    files: &Vec<FileRecord>,
    postings: &mut S,
    tombstones: &Vec<u32>,
    ids: IndexIds,
) -> (r: Result<Vec<u8>, IndexError>)
    requires
        old(postings).wf(),
    ensures
        ({
            let c = Contents {
                root: root@,
                files: entries(files@),
                lists: old(postings).lists(),
                tombstones: tombstones@,
                ids,
            };
            match r {
                Ok(bytes) => written(c, old(postings).fault()) == Ok::<Seq<u8>, Fault>(bytes@),
                Err(e) => written(c, old(postings).fault()) == Err::<Seq<u8>, Fault>(e.fault()),
            }
        }),
{
    let ghost all = postings.lists();
    let ghost fault = postings.fault();
    let ghost n = files@.len();
    let mut writer = IndexWriter::new(files.len());
    let mut blob: Vec<u8> = Vec::new();
    assert(all.take(0) =~= Seq::<(u32, Listing)>::empty());
    assert(all.skip(0) =~= all);
    assert(list_parts(all.take(0), n) =~= Seq::<Seq<u8>>::empty());
    loop
        invariant_except_break
            all == old(postings).lists(),
            fault == old(postings).fault(),
            n == files@.len(),
            writer.wf(),
            writer.files() == n,
            writer.lists().len() <= all.len(),
            writer.lists() == all.take(writer.lists().len() as int),
            postings.lists() == all.skip(writer.lists().len() as int),
            postings.fault() == fault,
            postings.wf(),
            lists_rejected(all, n, writer.lists().len() as int) is None,
            blob@ == flat(list_parts(writer.lists(), n)),
        ensures
            all == old(postings).lists(),
            fault == old(postings).fault(),
            fault is None,
            n == files@.len(),
            writer.wf(),
            writer.files() == n,
            writer.lists() == all,
            lists_rejected(all, n, all.len() as int) is None,
            blob@ == flat(list_parts(all, n)),
        decreases all.len() - writer.lists().len(),
    {
        let ghost k = writer.lists().len() as int;
        let ghost done = writer.lists();
        match postings.next() {
            Err(e) => {
                assert(all.take(k) =~= all);
                return Err(e);
            },
            Ok(None) => {
                assert(all.take(k) =~= all);
                break;
            },
            Ok(Some((key, list))) => {
                let ghost more = done.push((key, list@));
                assert(all.skip(k)[0] == all[k]);
                assert(all.take(k + 1) =~= more);
                assert(all.skip(k).drop_first() =~= all.skip(k + 1));
                proof {
                    lemma_rejected_prefix(all, more, n, k + 1);
                }
                match writer.add(key, &list) {
                    Ok(bytes) => {
                        assert(list_parts(more, n).drop_last() =~= list_parts(done, n));
                        push_bytes(&mut blob, bytes.as_slice());
                    },
                    Err(e) => {
                        proof {
                            lemma_rejected_stays(all, n, k + 1, all.len() as int);
                        }
                        return Err(e);
                    },
                }
            },
        }
    }
    match writer.head(root, files, tombstones, ids) {
        Ok(head) => {
            let mut out = head;
            push_bytes(&mut out, blob.as_slice());
            Ok(out)
        },
        Err(e) => Err(e),
    }
}

} // verus!
