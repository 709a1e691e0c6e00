//! What stands where in an index file.
//!
//! Single file, little-endian, designed to be mmap'd and used directly:
//!
//! ```text
//! [magic "GRIXIDX3"][header][root path][paths blob][file table]
//! [scan-always ids][tombstones][trigram table][postings]
//! ```
//!
//! - header: twenty 8-byte words
//! - file table: fixed 28-byte entries (path off/len, size, mtime, flags)
//! - scan-always ids: ascending u32 file ids with FLAG_SCAN_ALWAYS, so a
//!   search adds them without walking the whole file table
//! - tombstones: ids of the base index that an overlay supersedes
//! - trigram table: fixed 16-byte entries (key, postings len, postings word),
//!   sorted by key -> binary search; the two high bits of the word are the
//!   encoding, the rest is the offset, or the count of a dense list
//! - postings: per trigram, in one of the three encodings

use crate::bytes::{flat, le, number_at};
use crate::index::postings::{
    list_bytes, list_count, list_encoding, read_list, storable, Encoding, Listing,
};
use vstd::prelude::*;
use vstd::utf8::{decode_utf8, encode_utf8, valid_utf8};

verus! {

pub const VERSION: u32 = 3;

pub const HEADER_LEN: usize = 160;

/// File was too large to index; search must always scan it.
pub const FLAG_SCAN_ALWAYS: u32 = 1;

/// File looked binary (NUL byte); excluded from search entirely.
pub const FLAG_BINARY: u32 = 2;

/// File is hidden; searched on request only.
pub const FLAG_HIDDEN: u32 = 4;

/// File has no postings: too large or binary.
pub const FLAG_UNINDEXED: u32 = 3;

/// "GRIXIDX3".
pub open spec fn magic() -> Seq<u8> {
    seq![71u8, 82, 73, 88, 73, 68, 88, 51]
}

/// What an index knows of a file.
pub struct Entry {
    /// Path relative to the index root, '/'-separated.
    pub path: Seq<char>,
    pub size: u64,
    /// Nanoseconds since the unix epoch (0 if unknown).
    pub mtime: u64,
    pub flags: u32,
}

/// Identity of an index file: its own build, and for an overlay the build of
/// the base that it belongs to.
#[derive(Debug, Clone, Copy, PartialEq, Eq, Structural)]
pub struct IndexIds {
    pub build_id: u64,
    /// 0 for a base.
    pub parent_id: u64,
}

impl IndexIds {
    /// The ids of a base index.
    pub fn base(build_id: u64) -> (r: IndexIds)
        ensures
            r == (IndexIds { build_id, parent_id: 0 }),
    {
        IndexIds { build_id, parent_id: 0 }
    }
}

/// What an index holds.
pub struct Contents {
    pub root: Seq<char>,
    pub files: Seq<Entry>,
    /// The trigrams and the files that contain them.
    pub lists: Seq<(u32, Listing)>,
    pub tombstones: Seq<u32>,
    pub ids: IndexIds,
}

/// The paths in UTF-8.
pub open spec fn path_parts(files: Seq<Entry>) -> Seq<Seq<u8>> {
    Seq::new(files.len(), |i: int| encode_utf8(files[i].path))
}

pub open spec fn file_row(files: Seq<Entry>, i: int) -> Seq<u8> {
    le(flat(path_parts(files).take(i)).len(), 4) + le(path_parts(files)[i].len(), 4) + le(
        files[i].size as nat,
        8,
    ) + le(files[i].mtime as nat, 8) + le(files[i].flags as nat, 4)
}

pub open spec fn file_rows(files: Seq<Entry>) -> Seq<Seq<u8>> {
    Seq::new(files.len(), |i: int| file_row(files, i))
}

/// The ids of the first `n` files that a search must always scan.
pub open spec fn scan_always(files: Seq<Entry>, n: int) -> Seq<u32>
    decreases n,
{
    if n <= 0 {
        Seq::empty()
    } else if files[n - 1].flags & FLAG_SCAN_ALWAYS != 0 {
        scan_always(files, n - 1).push((n - 1) as u32)
    } else {
        scan_always(files, n - 1)
    }
}

pub open spec fn id_rows(ids: Seq<u32>) -> Seq<Seq<u8>> {
    Seq::new(ids.len(), |i: int| le(ids[i] as nat, 4))
}

pub open spec fn list_parts(lists: Seq<(u32, Listing)>, file_count: nat) -> Seq<Seq<u8>> {
    Seq::new(lists.len(), |i: int| list_bytes(lists[i].1, file_count))
}

/// The number of an encoding.
pub open spec fn tag(e: Encoding) -> nat {
    match e {
        Encoding::Varint => 0,
        Encoding::Bitmap => 1,
        Encoding::Dense => 2,
    }
}

/// The encoding with a number.
pub open spec fn tagged(n: nat) -> Encoding {
    if n == 0 {
        Encoding::Varint
    } else if n == 1 {
        Encoding::Bitmap
    } else {
        Encoding::Dense
    }
}

/// The limit of offsets and counts: 2^62.
pub const WORD_LIMIT: u64 = 0x4000_0000_0000_0000;

/// The third field of a trigram entry.
pub open spec fn list_word(list: Listing, off: nat, file_count: nat) -> nat {
    let e = list_encoding(list, file_count);
    tag(e) * WORD_LIMIT as nat + if e == Encoding::Dense {
        list_count(list)
    } else {
        off
    }
}

pub open spec fn tri_row(lists: Seq<(u32, Listing)>, file_count: nat, i: int) -> Seq<u8> {
    let parts = list_parts(lists, file_count);
    le(lists[i].0 as nat, 4) + le(parts[i].len(), 4) + le(
        list_word(lists[i].1, flat(parts.take(i)).len(), file_count),
        8,
    )
}

pub open spec fn tri_rows(lists: Seq<(u32, Listing)>, file_count: nat) -> Seq<Seq<u8>> {
    Seq::new(lists.len(), |i: int| tri_row(lists, file_count, i))
}

/// Lengths of the sections behind the header.
pub struct Sizes {
    pub root: nat,
    pub paths: nat,
    pub files: nat,
    pub scan_always: nat,
    pub tombstones: nat,
    pub lists: nat,
    pub postings: nat,
}

pub open spec fn sizes(c: Contents) -> Sizes {
    Sizes {
        root: encode_utf8(c.root).len(),
        paths: flat(path_parts(c.files)).len(),
        files: c.files.len(),
        scan_always: scan_always(c.files, c.files.len() as int).len(),
        tombstones: c.tombstones.len(),
        lists: c.lists.len(),
        postings: flat(list_parts(c.lists, c.files.len())).len(),
    }
}

pub open spec fn paths_off(z: Sizes) -> nat {
    HEADER_LEN as nat + z.root
}

pub open spec fn files_off(z: Sizes) -> nat {
    paths_off(z) + z.paths
}

pub open spec fn scan_always_off(z: Sizes) -> nat {
    files_off(z) + 28 * z.files
}

pub open spec fn tombstones_off(z: Sizes) -> nat {
    scan_always_off(z) + 4 * z.scan_always
}

pub open spec fn lists_off(z: Sizes) -> nat {
    tombstones_off(z) + 4 * z.tombstones
}

pub open spec fn postings_off(z: Sizes) -> nat {
    lists_off(z) + 16 * z.lists
}

/// The words of the header behind the magic.
pub open spec fn header_words(z: Sizes, ids: IndexIds) -> Seq<nat> {
    seq![
        VERSION as nat,
        z.files,
        z.lists,
        files_off(z),
        paths_off(z),
        z.paths,
        lists_off(z),
        postings_off(z),
        z.postings,
        HEADER_LEN as nat,
        z.root,
        scan_always_off(z),
        z.scan_always,
        tombstones_off(z),
        z.tombstones,
        ids.build_id as nat,
        ids.parent_id as nat,
        0,
        0,
    ]
}

pub open spec fn header_parts(z: Sizes, ids: IndexIds) -> Seq<Seq<u8>> {
    seq![magic()] + Seq::new(19, |i: int| le(header_words(z, ids)[i], 8))
}

pub open spec fn sections(c: Contents) -> Seq<Seq<u8>> {
    seq![
        flat(header_parts(sizes(c), c.ids)),
        encode_utf8(c.root),
        flat(path_parts(c.files)),
        flat(file_rows(c.files)),
        flat(id_rows(scan_always(c.files, c.files.len() as int))),
        flat(id_rows(c.tombstones)),
        flat(tri_rows(c.lists, c.files.len())),
        flat(list_parts(c.lists, c.files.len())),
    ]
}

/// The bytes of the index with the given contents.
pub open spec fn image(c: Contents) -> Seq<u8> {
    flat(sections(c))
}

/// Why a list cannot be added behind `count` lists of `off` bytes, if so.
pub open spec fn list_rejected(list: Listing, file_count: nat, count: nat, off: nat) -> Option<
    Seq<char>,
> {
    if list matches Listing::Ids(ids) && !storable(ids, file_count) {
        Some("postings not ascending"@)
    } else if count >= u32::MAX || list_bytes(list, file_count).len() > u32::MAX || off
        + list_bytes(list, file_count).len() >= WORD_LIMIT || list_count(list) >= WORD_LIMIT {
        Some("index too large"@)
    } else {
        None
    }
}

/// Why the first `n` lists cannot be added, if so.
pub open spec fn lists_rejected(lists: Seq<(u32, Listing)>, file_count: nat, n: int) -> Option<
    Seq<char>,
>
    decreases n,
{
    if n <= 0 {
        None
    } else {
        match lists_rejected(lists, file_count, n - 1) {
            Some(what) => Some(what),
            None => list_rejected(
                lists[n - 1].1,
                file_count,
                (n - 1) as nat,
                flat(list_parts(lists.take(n - 1), file_count)).len(),
            ),
        }
    }
}

/// Whether the format has no room for an index: the paths or the files are
/// more than a `u32` counts, or the whole is more than a `u64` does.
pub open spec fn oversized(c: Contents) -> bool {
    let z = sizes(c);
    z.paths > u32::MAX || z.files > u32::MAX || postings_off(z) + z.postings > u64::MAX
}

/// The bytes written for an index, or why none are: a list that cannot be
/// stored, the fault of the source, or more than the format has room for.
pub open spec fn written(c: Contents, source_fault: Option<Fault>) -> Result<Seq<u8>, Fault> {
    match lists_rejected(c.lists, c.files.len(), c.lists.len() as int) {
        Some(what) => Err(Fault::Corrupt(what)),
        None => match source_fault {
            Some(f) => Err(f),
            None => if oversized(c) {
                Err(Fault::Corrupt("index too large"@))
            } else {
                Ok(image(c))
            },
        },
    }
}

/// What is wrong with an index.
pub enum Fault {
    Io(Seq<char>),
    Corrupt(Seq<char>),
    WrongVersion(u32),
}

/// Where the sections of an index file are.
pub struct Layout {
    pub file_count: nat,
    pub tri_count: nat,
    pub file_table_off: nat,
    pub paths_off: nat,
    pub paths_len: nat,
    pub tri_table_off: nat,
    pub postings_off: nat,
    pub postings_len: nat,
    pub root_off: nat,
    pub root_len: nat,
    pub scan_always_off: nat,
    pub scan_always_count: nat,
    pub tombstones_off: nat,
    pub tombstones_count: nat,
    pub build_id: nat,
    pub parent_id: nat,
}

pub open spec fn layout_of(b: Seq<u8>) -> Layout {
    Layout {
        file_count: number_at(b, 16, 8),
        tri_count: number_at(b, 24, 8),
        file_table_off: number_at(b, 32, 8),
        paths_off: number_at(b, 40, 8),
        paths_len: number_at(b, 48, 8),
        tri_table_off: number_at(b, 56, 8),
        postings_off: number_at(b, 64, 8),
        postings_len: number_at(b, 72, 8),
        root_off: number_at(b, 80, 8),
        root_len: number_at(b, 88, 8),
        scan_always_off: number_at(b, 96, 8),
        scan_always_count: number_at(b, 104, 8),
        tombstones_off: number_at(b, 112, 8),
        tombstones_count: number_at(b, 120, 8),
        build_id: number_at(b, 128, 8),
        parent_id: number_at(b, 136, 8),
    }
}

/// What is wrong with a table of `count` entries of `width` bytes, if anything.
pub open spec fn table_fault(
    off: nat,
    count: nat,
    width: nat,
    len: nat,
    overflow: Seq<char>,
    outside: Seq<char>,
) -> Option<Fault> {
    if count * width > u64::MAX {
        Some(Fault::Corrupt(overflow))
    } else if off + count * width > len {
        Some(Fault::Corrupt(outside))
    } else {
        None
    }
}

/// The first of the faults of the sections, if any.
pub open spec fn section_fault(l: Layout, b: Seq<u8>) -> Option<Fault> {
    let n = b.len();
    let files = table_fault(
        l.file_table_off,
        l.file_count,
        28,
        n,
        "file table overflow"@,
        "file table out of bounds"@,
    );
    let tris = table_fault(
        l.tri_table_off,
        l.tri_count,
        16,
        n,
        "tri table overflow"@,
        "tri table out of bounds"@,
    );
    let scans = table_fault(
        l.scan_always_off,
        l.scan_always_count,
        4,
        n,
        "scan-always overflow"@,
        "scan-always out of bounds"@,
    );
    let tombs = table_fault(
        l.tombstones_off,
        l.tombstones_count,
        4,
        n,
        "tombstones overflow"@,
        "tombstones out of bounds"@,
    );
    if l.root_off + l.root_len > n {
        Some(Fault::Corrupt("root out of bounds"@))
    } else if l.paths_off + l.paths_len > n {
        Some(Fault::Corrupt("paths out of bounds"@))
    } else if files is Some {
        files
    } else if tris is Some {
        tris
    } else if l.postings_off + l.postings_len > n {
        Some(Fault::Corrupt("postings out of bounds"@))
    } else if scans is Some {
        scans
    } else if tombs is Some {
        tombs
    } else if l.scan_always_count > l.file_count {
        Some(Fault::Corrupt("scan-always count out of range"@))
    } else if l.file_count > u32::MAX {
        Some(Fault::Corrupt("file count out of range"@))
    } else if !valid_utf8(b.subrange(l.root_off as int, (l.root_off + l.root_len) as int)) {
        Some(Fault::Corrupt("root not utf-8"@))
    } else {
        None
    }
}

/// Where the sections of an index file are, or what is wrong with it.
pub open spec fn opened(b: Seq<u8>) -> Result<Layout, Fault> {
    if b.len() < 12 || b.take(7) != magic().take(7) {
        Err(Fault::Corrupt("bad magic"@))
    } else if b.take(8) != magic() {
        // An older grix wrote this; the caller rebuilds it.
        Err(Fault::WrongVersion(number_at(b, 8, 4) as u32))
    } else if b.len() < HEADER_LEN {
        Err(Fault::Corrupt("truncated header"@))
    } else if number_at(b, 8, 4) != VERSION {
        Err(Fault::WrongVersion(number_at(b, 8, 4) as u32))
    } else {
        match section_fault(layout_of(b), b) {
            Some(f) => Err(f),
            None => Ok(layout_of(b)),
        }
    }
}

/// The root that an index is of.
pub open spec fn root_of(b: Seq<u8>, l: Layout) -> Seq<char> {
    decode_utf8(b.subrange(l.root_off as int, (l.root_off + l.root_len) as int))
}

/// File `id` of an index, or what is wrong with it.
pub open spec fn file_at(b: Seq<u8>, l: Layout, id: nat) -> Result<Entry, Fault> {
    let e = (l.file_table_off + 28 * id) as int;
    let from = (l.paths_off + number_at(b, e, 4)) as int;
    let to = from + number_at(b, e + 4, 4);
    if id >= l.file_count {
        Err(Fault::Corrupt("file id out of range"@))
    } else if to > b.len() || !valid_utf8(b.subrange(from, to)) {
        Err(Fault::Corrupt("bad path entry"@))
    } else {
        Ok(
            Entry {
                path: decode_utf8(b.subrange(from, to)),
                size: number_at(b, e + 8, 8) as u64,
                mtime: number_at(b, e + 16, 8) as u64,
                flags: number_at(b, e + 24, 4) as u32,
            },
        )
    }
}

/// The `count` ids from `off` on.
pub open spec fn ids_at(b: Seq<u8>, off: nat, count: nat) -> Seq<u32> {
    Seq::new(count, |i: int| number_at(b, off + 4 * i, 4) as u32)
}

/// The keys of the trigram table.
pub open spec fn keys_of(b: Seq<u8>, l: Layout) -> Seq<u32> {
    Seq::new(l.tri_count, |i: int| number_at(b, l.tri_table_off + 16 * i, 4) as u32)
}

/// The list of trigram entry `i`, or what is wrong with it.
pub open spec fn list_at(b: Seq<u8>, l: Layout, i: int) -> Result<Listing, Fault> {
    let e = l.tri_table_off + 16 * i;
    let len = number_at(b, e + 4, 4);
    let word = number_at(b, e + 8, 8);
    let value = word % (WORD_LIMIT as nat);
    let encoding = tagged(word / (WORD_LIMIT as nat));
    let from = (l.postings_off + value) as int;
    if encoding == Encoding::Dense {
        match read_list(encoding, Seq::empty(), value as u64, l.file_count) {
            Ok(list) => Ok(list),
            Err(e) => Err(Fault::Corrupt(e)),
        }
    } else if from + len > b.len() {
        Err(Fault::Corrupt("postings out of bounds"@))
    } else {
        match read_list(encoding, b.subrange(from, from + len), value as u64, l.file_count) {
            Ok(list) => Ok(list),
            Err(e) => Err(Fault::Corrupt(e)),
        }
    }
}

/// Where the halving of `lo..hi` meets `key`.
pub open spec fn probe(keys: Seq<u32>, key: u32, lo: int, hi: int) -> Option<int>
    decreases hi - lo,
{
    if lo >= hi {
        None
    } else {
        let mid = (lo + hi) / 2;
        if keys[mid] < key {
            probe(keys, key, mid + 1, hi)
        } else if keys[mid] > key {
            probe(keys, key, lo, mid)
        } else {
            Some(mid)
        }
    }
}

/// The files that contain a trigram, or what is wrong; none when absent.
pub open spec fn list_of(b: Seq<u8>, l: Layout, key: u32) -> Result<Listing, Fault> {
    match probe(keys_of(b, l), key, 0, l.tri_count as int) {
        Some(i) => list_at(b, l, i),
        None => Ok(Listing::Ids(Seq::empty())),
    }
}

} // verus!
