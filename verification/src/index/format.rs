//! Reading and writing index files (format version 3).
//!
//! Older versions are rejected with `WrongVersion`. Every read is
//! bounds-checked; a corrupt index yields an error.

use crate::bytes::{number_at, u32_at, u64_at};
use crate::index::image::{
    file_at, ids_at, keys_of, layout_of, list_at, list_of, magic, opened, probe, root_of, Entry,
    Fault, Layout, HEADER_LEN, VERSION, WORD_LIMIT,
};
use crate::index::postings::{decode_list, Encoding, Listing};
use crate::numbers::{decimal, push_decimal};
use crate::text::{push_str, string_of, utf8_text};
pub use crate::index::image::{
    IndexIds, FLAG_BINARY, FLAG_HIDDEN, FLAG_SCAN_ALWAYS, FLAG_UNINDEXED,
};
pub use crate::index::postings::Postings;
pub use crate::index::writer::{write_index, PostingsSource, VecPostings};
use vstd::prelude::*;
use vstd::slice::slice_subrange;

verus! {

/// A file of an index.
#[derive(Debug)]
pub struct FileRecord {
    /// Path relative to the index root, '/'-separated.
    pub rel_path: String,
    pub size: u64,
    /// Nanoseconds since the unix epoch (0 if unknown).
    pub mtime: u64,
    pub flags: u32,
}

impl View for FileRecord {
    type V = Entry;

    open spec fn view(&self) -> Entry {
        Entry {
            path: self.rel_path@,
            size: self.size,
            mtime: self.mtime,
            flags: self.flags,
        }
    }
}

impl Clone for FileRecord {
    fn clone(&self) -> (r: FileRecord)
        ensures
            r@ == self@,
    {
        FileRecord {
            rel_path: self.rel_path.clone(),
            size: self.size,
            mtime: self.mtime,
            flags: self.flags,
        }
    }
}

#[derive(Debug)]
pub enum IndexError {
    Io(String),
    Corrupt(&'static str),
    WrongVersion(u32),
}

impl IndexError {
    pub open spec fn fault(self) -> Fault {
        match self {
            IndexError::Io(e) => Fault::Io(e@),
            IndexError::Corrupt(what) => Fault::Corrupt(what@),
            IndexError::WrongVersion(v) => Fault::WrongVersion(v),
        }
    }
}

/// What is said of a fault.
pub open spec fn fault_message(f: Fault) -> Seq<char> {
    match f {
        Fault::Io(e) => "index io error: "@ + e,
        Fault::Corrupt(what) => "corrupt index ("@ + what + ")"@,
        Fault::WrongVersion(v) => "unsupported index version "@ + decimal(v as nat),
    }
}

impl IndexError {
    pub fn message(&self) -> (r: String)
        ensures
            r@ == fault_message(self.fault()),
    {
        let mut out: Vec<char> = Vec::new();
        match self {
            IndexError::Io(e) => {
                push_str(&mut out, "index io error: ");
                push_str(&mut out, e.as_str());
            },
            IndexError::Corrupt(what) => {
                push_str(&mut out, "corrupt index (");
                push_str(&mut out, what);
                push_str(&mut out, ")");
            },
            IndexError::WrongVersion(v) => {
                push_str(&mut out, "unsupported index version ");
                push_decimal(&mut out, *v as u64);
            },
        }
        assert(out@ =~= fault_message(self.fault()));
        string_of(&out)
    }
}

/// What an index knows of a file, borrowed from it.
#[derive(Debug, Clone, Copy)]
pub struct FileMeta<'a> {
    pub rel_path: &'a str,
    pub size: u64,
    pub mtime: u64,
    pub flags: u32,
}

impl<'a> View for FileMeta<'a> {
    type V = Entry;

    open spec fn view(&self) -> Entry {
        Entry {
            path: self.rel_path@,
            size: self.size,
            mtime: self.mtime,
            flags: self.flags,
        }
    }
}

/// An index file, its sections validated.
pub struct IndexReader<'a> {
    buf: &'a [u8],
    file_count: usize,
    tri_count: usize,
    file_table_off: usize,
    paths_off: usize,
    tri_table_off: usize,
    postings_off: usize,
    root_off: usize,
    root_len: usize,
    scan_always_off: usize,
    scan_always_count: usize,
    tombstones_off: usize,
    tombstones_count: usize,
    ids: IndexIds,
}

/// Where a table lies.
#[derive(Clone, Copy, PartialEq, Eq, Structural)]
enum Extent {
    Overflow,
    Outside,
    Inside,
}

fn extent(off: u64, count: u64, width: u64, len: usize) -> (r: Extent)
    ensures
        r == if count * width > u64::MAX {
            Extent::Overflow
        } else if off + count * width > len {
            Extent::Outside
        } else {
            Extent::Inside
        },
{
    match count.checked_mul(width) {
        None => Extent::Overflow,
        Some(n) => match off.checked_add(n) {
            None => Extent::Outside,
            Some(end) => if end > len as u64 {
                Extent::Outside
            } else {
                Extent::Inside
            },
        },
    }
}

/// The first seven bytes of the magic, and the eighth.
fn magic_match(buf: &[u8]) -> (r: (bool, bool))
    requires
        buf@.len() >= 12,
    ensures
        r.0 == (buf@.take(7) == magic().take(7)),
        r.0 ==> r.1 == (buf@.take(8) == magic()),
{
    let seven = buf[0] == 71 && buf[1] == 82 && buf[2] == 73 && buf[3] == 88 && buf[4] == 73
        && buf[5] == 68 && buf[6] == 88;
    proof {
        let a = buf@.take(7);
        let m = magic().take(7);
        if seven {
            assert(a =~= m);
        } else if a == m {
            assert(a[0] == m[0] && a[1] == m[1] && a[2] == m[2] && a[3] == m[3] && a[4] == m[4]
                && a[5] == m[5] && a[6] == m[6]);
        }
        let b = buf@.take(8);
        if seven && buf@[7] == 51 {
            assert(b =~= magic());
        } else if b == magic() {
            assert(b[7] == magic()[7]);
        }
    }
    (seven, buf[7] == 51)
}

/// The bytes of an index, if there is one.
pub open spec fn bytes_of(index: Option<&IndexReader>) -> Option<Seq<u8>> {
    match index {
        Some(x) => Some(x.bytes()),
        None => None,
    }
}

impl<'a> IndexReader<'a> {
    /// The bytes of the file.
    pub closed spec fn bytes(&self) -> Seq<u8> {
        self.buf@
    }

    /// Where its sections are.
    pub open spec fn layout(&self) -> Layout {
        layout_of(self.bytes())
    }

    #[verifier::type_invariant]
    spec fn valid(self) -> bool {
        let l = layout_of(self.buf@);
        &&& opened(self.buf@) == Ok::<Layout, Fault>(l)
        &&& self.file_count == l.file_count
        &&& self.tri_count == l.tri_count
        &&& self.file_table_off == l.file_table_off
        &&& self.paths_off == l.paths_off
        &&& self.tri_table_off == l.tri_table_off
        &&& self.postings_off == l.postings_off
        &&& self.root_off == l.root_off
        &&& self.root_len == l.root_len
        &&& self.scan_always_off == l.scan_always_off
        &&& self.scan_always_count == l.scan_always_count
        &&& self.tombstones_off == l.tombstones_off
        &&& self.tombstones_count == l.tombstones_count
        &&& self.ids.build_id == l.build_id
        &&& self.ids.parent_id == l.parent_id
    }

    /// Validate an index file. Accessors rely on the bounds checked here.
    pub fn parse(buf: &'a [u8]) -> (r: Result<IndexReader<'a>, IndexError>)
        ensures
            match r {
                Ok(reader) => reader.bytes() == buf@ && opened(buf@) == Ok::<Layout, Fault>(
                    reader.layout(),
                ),
                Err(e) => opened(buf@) == Err::<Layout, Fault>(e.fault()),
            },
    {
        if buf.len() < 12 {
            return Err(IndexError::Corrupt("bad magic"));
        }
        let (seven, eighth) = magic_match(buf);
        if !seven {
            return Err(IndexError::Corrupt("bad magic"));
        }
        if !eighth {
            // An older grix wrote this; the caller rebuilds it.
            return Err(IndexError::WrongVersion(u32_at(buf, 8)));
        }
        if buf.len() < HEADER_LEN {
            return Err(IndexError::Corrupt("truncated header"));
        }
        let version: u32 = u32_at(buf, 8);
        if version != VERSION {
            return Err(IndexError::WrongVersion(version));
        }
        let file_count: u64 = u64_at(buf, 16);
        let tri_count: u64 = u64_at(buf, 24);
        let file_table_off: u64 = u64_at(buf, 32);
        let paths_off: u64 = u64_at(buf, 40);
        let paths_len: u64 = u64_at(buf, 48);
        let tri_table_off: u64 = u64_at(buf, 56);
        let postings_off: u64 = u64_at(buf, 64);
        let postings_len: u64 = u64_at(buf, 72);
        let root_off: u64 = u64_at(buf, 80);
        let root_len: u64 = u64_at(buf, 88);
        let scan_always_off: u64 = u64_at(buf, 96);
        let scan_always_count: u64 = u64_at(buf, 104);
        let tombstones_off: u64 = u64_at(buf, 112);
        let tombstones_count: u64 = u64_at(buf, 120);
        let ids = IndexIds { build_id: u64_at(buf, 128), parent_id: u64_at(buf, 136) };
        let ghost l = layout_of(buf@);

        // Validate section bounds once so accessors can stay cheap.
        let len: usize = buf.len();
        let root_in = extent(root_off, root_len, 1, len);
        assert(root_len * 1 == root_len);
        match root_in {
            Extent::Inside => {},
            _ => {
                return Err(IndexError::Corrupt("root out of bounds"));
            },
        }
        let paths_in = extent(paths_off, paths_len, 1, len);
        assert(paths_len * 1 == paths_len);
        match paths_in {
            Extent::Inside => {},
            _ => {
                return Err(IndexError::Corrupt("paths out of bounds"));
            },
        }
        match extent(file_table_off, file_count, 28, len) {
            Extent::Inside => {},
            Extent::Overflow => {
                return Err(IndexError::Corrupt("file table overflow"));
            },
            Extent::Outside => {
                return Err(IndexError::Corrupt("file table out of bounds"));
            },
        }
        match extent(tri_table_off, tri_count, 16, len) {
            Extent::Inside => {},
            Extent::Overflow => {
                return Err(IndexError::Corrupt("tri table overflow"));
            },
            Extent::Outside => {
                return Err(IndexError::Corrupt("tri table out of bounds"));
            },
        }
        let postings_in = extent(postings_off, postings_len, 1, len);
        assert(postings_len * 1 == postings_len);
        match postings_in {
            Extent::Inside => {},
            _ => {
                return Err(IndexError::Corrupt("postings out of bounds"));
            },
        }
        match extent(scan_always_off, scan_always_count, 4, len) {
            Extent::Inside => {},
            Extent::Overflow => {
                return Err(IndexError::Corrupt("scan-always overflow"));
            },
            Extent::Outside => {
                return Err(IndexError::Corrupt("scan-always out of bounds"));
            },
        }
        match extent(tombstones_off, tombstones_count, 4, len) {
            Extent::Inside => {},
            Extent::Overflow => {
                return Err(IndexError::Corrupt("tombstones overflow"));
            },
            Extent::Outside => {
                return Err(IndexError::Corrupt("tombstones out of bounds"));
            },
        }
        if scan_always_count > file_count {
            return Err(IndexError::Corrupt("scan-always count out of range"));
        }
        if file_count > u32::MAX as u64 {
            return Err(IndexError::Corrupt("file count out of range"));
        }
        let root = slice_subrange(buf, root_off as usize, (root_off + root_len) as usize);
        if utf8_text(root).is_none() {
            return Err(IndexError::Corrupt("root not utf-8"));
        }
        Ok(
            IndexReader {
                buf,
                file_count: file_count as usize,
                tri_count: tri_count as usize,
                file_table_off: file_table_off as usize,
                paths_off: paths_off as usize,
                tri_table_off: tri_table_off as usize,
                postings_off: postings_off as usize,
                root_off: root_off as usize,
                root_len: root_len as usize,
                scan_always_off: scan_always_off as usize,
                scan_always_count: scan_always_count as usize,
                tombstones_off: tombstones_off as usize,
                tombstones_count: tombstones_count as usize,
                ids,
            },
        )
    }

    pub fn root(&self) -> (r: &'a str)
        ensures
            r@ == root_of(self.bytes(), self.layout()),
    {
        proof {
            use_type_invariant(self);
        }
        assert(self.root_off + self.root_len <= self.buf.len());
        let part = slice_subrange(self.buf, self.root_off, self.root_off + self.root_len);
        match utf8_text(part) {
            Some(s) => s,
            None => "",
        }
    }

    pub fn file_count(&self) -> (r: usize)
        ensures
            r == self.layout().file_count,
            r <= u32::MAX,
    {
        proof {
            use_type_invariant(self);
        }
        self.file_count
    }

    pub fn trigram_count(&self) -> (r: usize)
        ensures
            r == self.layout().tri_count,
    {
        proof {
            use_type_invariant(self);
        }
        self.tri_count
    }

    pub fn index_ids(&self) -> (r: IndexIds)
        ensures
            r.build_id == self.layout().build_id,
            r.parent_id == self.layout().parent_id,
    {
        proof {
            use_type_invariant(self);
        }
        self.ids
    }

    /// The `count` ids from `off` on.
    fn read_ids(&self, off: usize, count: usize) -> (r: Vec<u32>)
        requires
            off + 4 * count <= self.bytes().len(),
        ensures
            r@ == ids_at(self.bytes(), off as nat, count as nat),
    {
        let mut r: Vec<u32> = Vec::new();
        let ghost b = self.bytes();
        let buf = self.buf;
        assert(buf.len() == b.len());
        for i in 0..count
            invariant
                off + 4 * count <= b.len(),
                buf@ == b,
                buf@.len() <= usize::MAX,
                r@.len() == i,
                forall|k: int| 0 <= k < i ==> #[trigger] r@[k] == number_at(b, off + 4 * k, 4) as u32,
        {
            r.push(u32_at(buf, off + 4 * i));
        }
        assert(r@ =~= ids_at(b, off as nat, count as nat));
        r
    }

    /// Ids of files a search must always scan (too large to index),
    /// ascending. O(that list), not O(all files).
    pub fn scan_always_ids(&self) -> (r: Vec<u32>)
        ensures
            r@ == ids_at(
                self.bytes(),
                self.layout().scan_always_off,
                self.layout().scan_always_count,
            ),
    {
        proof {
            use_type_invariant(self);
        }
        self.read_ids(self.scan_always_off, self.scan_always_count)
    }

    /// Ids of the base index that this overlay supersedes.
    pub fn tombstones(&self) -> (r: Vec<u32>)
        ensures
            r@ == ids_at(
                self.bytes(),
                self.layout().tombstones_off,
                self.layout().tombstones_count,
            ),
    {
        proof {
            use_type_invariant(self);
        }
        self.read_ids(self.tombstones_off, self.tombstones_count)
    }

    pub fn file(&self, id: u32) -> (r: Result<FileMeta<'a>, IndexError>)
        ensures
            match r {
                Ok(m) => file_at(self.bytes(), self.layout(), id as nat) == Ok::<Entry, Fault>(m@),
                Err(e) => file_at(self.bytes(), self.layout(), id as nat) == Err::<Entry, Fault>(
                    e.fault(),
                ),
            },
    {
        proof {
            use_type_invariant(self);
        }
        let id: usize = id as usize;
        if id >= self.file_count {
            return Err(IndexError::Corrupt("file id out of range"));
        }
        let buf = self.buf;
        let ghost b = self.bytes();
        assert(buf.len() == b.len());
        let e: usize = self.file_table_off + 28 * id;
        let path_off: u64 = u32_at(buf, e) as u64;
        let path_len: u64 = u32_at(buf, e + 4) as u64;
        let size: u64 = u64_at(buf, e + 8);
        let mtime: u64 = u64_at(buf, e + 16);
        let flags: u32 = u32_at(buf, e + 24);
        let from: u128 = self.paths_off as u128 + path_off as u128;
        let to: u128 = from + path_len as u128;
        if to > buf.len() as u128 {
            return Err(IndexError::Corrupt("bad path entry"));
        }
        match utf8_text(slice_subrange(buf, from as usize, to as usize)) {
            Some(rel_path) => Ok(FileMeta { rel_path, size, mtime, flags }),
            None => Err(IndexError::Corrupt("bad path entry")),
        }
    }

    /// The key of trigram entry `i` and its list.
    pub fn entry(&self, i: usize) -> (r: Result<(u32, Postings), IndexError>)
        requires
            i < self.layout().tri_count,
        ensures
            match r {
                Ok((k, list)) => k == keys_of(self.bytes(), self.layout())[i as int] && list_at(
                    self.bytes(),
                    self.layout(),
                    i as int,
                ) == Ok::<Listing, Fault>(list@),
                Err(e) => list_at(self.bytes(), self.layout(), i as int) == Err::<Listing, Fault>(
                    e.fault(),
                ),
            },
    {
        proof {
            use_type_invariant(self);
        }
        let buf = self.buf;
        let ghost b = self.bytes();
        assert(buf.len() == b.len());
        let e: usize = self.tri_table_off + 16 * i;
        let key: u32 = u32_at(buf, e);
        let len: u64 = u32_at(buf, e + 4) as u64;
        let word: u64 = u64_at(buf, e + 8);
        let value: u64 = word % WORD_LIMIT;
        let encoding = if word / WORD_LIMIT == 0 {
            Encoding::Varint
        } else if word / WORD_LIMIT == 1 {
            Encoding::Bitmap
        } else {
            Encoding::Dense
        };
        let list = match encoding {
            Encoding::Dense => {
                let none: Vec<u8> = Vec::new();
                assert(none@ =~= Seq::<u8>::empty());
                decode_list(encoding, none.as_slice(), value, self.file_count)
            },
            _ => {
                let from: u128 = self.postings_off as u128 + value as u128;
                let to: u128 = from + len as u128;
                if to > buf.len() as u128 {
                    return Err(IndexError::Corrupt("postings out of bounds"));
                }
                decode_list(
                    encoding,
                    slice_subrange(buf, from as usize, to as usize),
                    value,
                    self.file_count,
                )
            },
        };
        match list {
            Ok(list) => Ok((key, list)),
            Err(e) => Err(e),
        }
    }

    /// Decode the posting list for a trigram. Empty when absent.
    pub fn postings(&self, key: u32) -> (r: Result<Postings, IndexError>)
        ensures
            match r {
                Ok(list) => list_of(self.bytes(), self.layout(), key) == Ok::<Listing, Fault>(
                    list@,
                ),
                Err(e) => list_of(self.bytes(), self.layout(), key) == Err::<Listing, Fault>(
                    e.fault(),
                ),
            },
    {
        proof {
            use_type_invariant(self);
        }
        let buf = self.buf;
        let ghost b = self.bytes();
        let ghost l = self.layout();
        let ghost keys = keys_of(b, l);
        assert(buf.len() == b.len());
        let (mut lo, mut hi): (usize, usize) = (0, self.tri_count);
        let table: usize = self.tri_table_off;
        while lo < hi
            invariant
                b == self.bytes(),
                l == self.layout(),
                buf@ == b,
                buf@.len() <= usize::MAX,
                table == l.tri_table_off,
                keys == keys_of(b, l),
                0 <= lo <= hi <= l.tri_count,
                table + 16 * l.tri_count <= b.len(),
                probe(keys, key, 0, l.tri_count as int) == probe(keys, key, lo as int, hi as int),
            decreases hi - lo,
        {
            let mid: usize = lo + (hi - lo) / 2;
            assert(mid == (lo + hi) / 2);
            let k: u32 = u32_at(buf, table + 16 * mid);
            assert(keys[mid as int] == k);
            if k < key {
                lo = mid + 1;
            } else if k > key {
                hi = mid;
            } else {
                return match self.entry(mid) {
                    Ok((_, list)) => Ok(list),
                    Err(e) => Err(e),
                };
            }
        }
        let none: Vec<u32> = Vec::new();
        assert(none@ =~= Seq::<u32>::empty());
        Ok(Postings::Ids(none))
    }

    /// Every trigram with its list, for incremental merges; the error of the
    /// first one that is corrupt.
    pub fn iter_postings(&self) -> (r: Result<Vec<(u32, Postings)>, IndexError>)
        ensures
            match r {
                Ok(lists) => lists@.len() == self.layout().tri_count && forall|i: int|
                    0 <= i < lists@.len() ==> (#[trigger] lists@[i]).0 == keys_of(
                        self.bytes(),
                        self.layout(),
                    )[i] && list_at(self.bytes(), self.layout(), i) == Ok::<Listing, Fault>(
                        lists@[i].1@,
                    ),
                Err(e) => exists|i: int|
                    0 <= i < self.layout().tri_count && #[trigger] list_at(
                        self.bytes(),
                        self.layout(),
                        i,
                    ) == Err::<Listing, Fault>(e.fault()) && forall|j: int|
                        0 <= j < i ==> #[trigger] list_at(self.bytes(), self.layout(), j) is Ok,
            },
    {
        let mut lists: Vec<(u32, Postings)> = Vec::new();
        let n: usize = self.trigram_count();
        for i in 0..n
            invariant
                n == self.layout().tri_count,
                lists@.len() == i,
                forall|k: int|
                    0 <= k < i ==> (#[trigger] lists@[k]).0 == keys_of(
                        self.bytes(),
                        self.layout(),
                    )[k] && list_at(self.bytes(), self.layout(), k) == Ok::<Listing, Fault>(
                        lists@[k].1@,
                    ),
        {
            match self.entry(i) {
                Ok(x) => {
                    lists.push(x);
                },
                Err(e) => {
                    assert forall|j: int| 0 <= j < i implies #[trigger] list_at(
                        self.bytes(),
                        self.layout(),
                        j,
                    ) is Ok by {
                        assert(list_at(self.bytes(), self.layout(), j) == Ok::<Listing, Fault>(
                            lists@[j].1@,
                        ));
                    }
                    return Err(e);
                },
            }
        }
        Ok(lists)
    }
}

} // verus!
