//! Posting lists and their encodings.
//!
//! Each list gets the cheapest of three encodings: delta + LEB128 varints for
//! rare trigrams; a file-count-wide bitmap once more than 1/8 of all files
//! contain the trigram; and dense (document count only) once more than 3/4
//! contain it. A dense list narrows nothing, so dropping its ids only weakens
//! the constraint.

use crate::index::format::IndexError;
use crate::ids::{lemma_ascending_full, lemma_ascending_same};
use crate::trigram::ascending;
use crate::varint::{
    group_len, law_cut_value_is_not_read, law_read_after_write, leb128, leb128_head, read_u64,
    write_u64,
};
use vstd::prelude::*;

verus! {

/// The files that contain a trigram.
#[derive(Debug, PartialEq, Eq)]
pub enum Postings {
    /// Nearly all of them; only their number is known.
    Dense(u64),
    /// Their ids, ascending.
    Ids(Vec<u32>),
}

/// The mathematical form of `Postings`.
pub enum Listing {
    Dense(u64),
    Ids(Seq<u32>),
}

impl View for Postings {
    type V = Listing;

    open spec fn view(&self) -> Listing {
        match self {
            Postings::Dense(df) => Listing::Dense(*df),
            Postings::Ids(ids) => Listing::Ids(ids@),
        }
    }
}

/// How a list is stored.
#[derive(Clone, Copy, PartialEq, Eq, Structural)]
pub enum Encoding {
    Varint,
    Bitmap,
    Dense,
}

/// The encoding of a list of `df` ids among `file_count` files.
pub open spec fn encoding_of(df: nat, file_count: nat) -> Encoding {
    if df * 4 > file_count * 3 {
        Encoding::Dense
    } else if df * 8 > file_count {
        Encoding::Bitmap
    } else {
        Encoding::Varint
    }
}

/// Whether ids can be stored: ascending ids of existing files.
pub open spec fn storable(ids: Seq<u32>, file_count: nat) -> bool {
    ascending(ids) && forall|i: int| 0 <= i < ids.len() ==> #[trigger] ids[i] < file_count
}

/// The step from the id before to id `i`.
pub open spec fn delta(ids: Seq<u32>, i: int) -> nat {
    if i == 0 {
        ids[0] as nat
    } else {
        (ids[i] - ids[i - 1]) as nat
    }
}

/// The ids from `i` on as varints.
pub open spec fn varints(ids: Seq<u32>, i: int) -> Seq<u8>
    decreases ids.len() - i,
{
    if i < 0 || i >= ids.len() {
        Seq::empty()
    } else {
        leb128(delta(ids, i)) + varints(ids, i + 1)
    }
}

/// 1 when `n` is among the ids, else 0.
pub open spec fn bit(ids: Seq<u32>, n: int) -> nat {
    if exists|i: int| 0 <= i < ids.len() && ids[i] == n {
        1
    } else {
        0
    }
}

/// Byte `k` of the bitmap: the ids from 8k on, least significant bit first.
pub open spec fn bitmap_byte(ids: Seq<u32>, k: int) -> u8 {
    (bit(ids, 8 * k) + 2 * bit(ids, 8 * k + 1) + 4 * bit(ids, 8 * k + 2) + 8 * bit(ids, 8 * k + 3)
        + 16 * bit(ids, 8 * k + 4) + 32 * bit(ids, 8 * k + 5) + 64 * bit(ids, 8 * k + 6) + 128
        * bit(ids, 8 * k + 7)) as u8
}

pub open spec fn bitmap_len(file_count: nat) -> nat {
    (file_count + 7) / 8
}

pub open spec fn bitmap(ids: Seq<u32>, file_count: nat) -> Seq<u8> {
    Seq::new(bitmap_len(file_count), |k: int| bitmap_byte(ids, k))
}

/// How a list is stored among `file_count` files.
pub open spec fn list_encoding(list: Listing, file_count: nat) -> Encoding {
    match list {
        Listing::Dense(_) => Encoding::Dense,
        Listing::Ids(ids) => encoding_of(ids.len(), file_count),
    }
}

/// The bytes of a stored list.
pub open spec fn list_bytes(list: Listing, file_count: nat) -> Seq<u8> {
    match (list, list_encoding(list, file_count)) {
        (Listing::Ids(ids), Encoding::Varint) => varints(ids, 0),
        (Listing::Ids(ids), Encoding::Bitmap) => bitmap(ids, file_count),
        _ => Seq::empty(),
    }
}

/// The number of files that a list stands for.
pub open spec fn list_count(list: Listing) -> nat {
    match list {
        Listing::Dense(df) => df as nat,
        Listing::Ids(ids) => ids.len(),
    }
}

/// The number from a byte's bit `b`: 1 or 0.
pub open spec fn bit_of(v: u8, b: int) -> int {
    if b == 0 {
        v as int % 2
    } else if b == 1 {
        v as int / 2 % 2
    } else if b == 2 {
        v as int / 4 % 2
    } else if b == 3 {
        v as int / 8 % 2
    } else if b == 4 {
        v as int / 16 % 2
    } else if b == 5 {
        v as int / 32 % 2
    } else if b == 6 {
        v as int / 64 % 2
    } else {
        v as int / 128 % 2
    }
}

/// Whether bit `n` of a bitmap is set.
pub open spec fn bit_set(bytes: Seq<u8>, n: int) -> bool {
    bit_of(bytes[n / 8], n % 8) == 1
}

/// The ids below `n` that are set in a bitmap.
pub open spec fn set_ids(bytes: Seq<u8>, n: nat) -> Seq<u32>
    decreases n,
{
    if n == 0 {
        Seq::empty()
    } else {
        let before = set_ids(bytes, (n - 1) as nat);
        if bit_set(bytes, n - 1) {
            before.push((n - 1) as u32)
        } else {
            before
        }
    }
}

/// The ids that varints stand for, behind the id `prev` if there is one, or
/// what is wrong with them.
pub open spec fn varint_ids(bytes: Seq<u8>, prev: Option<nat>, file_count: nat) -> Result<
    Seq<u32>,
    Seq<char>,
>
    decreases bytes.len(),
{
    if bytes.len() == 0 {
        Ok(Seq::empty())
    } else {
        proof {
            lemma_group_len(bytes);
        }
        match leb128_head(bytes) {
            None => Err("truncated postings"@),
            Some((d, n)) => {
                let id = match prev {
                    Some(p) => p + d as nat,
                    None => d as nat,
                };
                if id >= file_count || id > u32::MAX {
                    Err("posting id out of range"@)
                } else {
                    match varint_ids(bytes.skip(n as int), Some(id), file_count) {
                        Ok(ids) => Ok(seq![id as u32] + ids),
                        Err(e) => Err(e),
                    }
                }
            },
        }
    }
}

pub proof fn lemma_group_len(s: Seq<u8>)
    ensures
        match group_len(s) {
            Some(n) => 1 <= n <= s.len(),
            None => true,
        },
    decreases s.len(),
{
    if s.len() > 0 {
        lemma_group_len(s.drop_first());
    }
}

/// The ids from 0 to `n`.
pub open spec fn all_ids(n: nat) -> Seq<u32> {
    Seq::new(n, |i: int| i as u32)
}

/// What a stored list is read as, or what is wrong with it. A dense list of
/// every file is that list.
pub open spec fn read_list(
    encoding: Encoding,
    bytes: Seq<u8>,
    count: u64,
    file_count: nat,
) -> Result<Listing, Seq<char>> {
    match encoding {
        Encoding::Varint => match varint_ids(bytes, None, file_count) {
            Ok(ids) => Ok(Listing::Ids(ids)),
            Err(e) => Err(e),
        },
        Encoding::Bitmap => if bytes.len() == bitmap_len(file_count) {
            Ok(Listing::Ids(set_ids(bytes, file_count)))
        } else {
            Err("bad bitmap length"@)
        },
        Encoding::Dense => if count == file_count {
            Ok(Listing::Ids(all_ids(file_count)))
        } else {
            Ok(Listing::Dense(count))
        },
    }
}

/// What is kept of a list when it is stored: everything, but for a dense
/// list of some files, of which the number is kept.
pub open spec fn kept(list: Listing, file_count: nat) -> Listing {
    match list_encoding(list, file_count) {
        Encoding::Dense => if list_count(list) == file_count {
            Listing::Ids(all_ids(file_count))
        } else {
            Listing::Dense(list_count(list) as u64)
        },
        _ => list,
    }
}

proof fn lemma_bit_of(x0: nat, x1: nat, x2: nat, x3: nat, x4: nat, x5: nat, x6: nat, x7: nat)
    requires
        x0 <= 1,
        x1 <= 1,
        x2 <= 1,
        x3 <= 1,
        x4 <= 1,
        x5 <= 1,
        x6 <= 1,
        x7 <= 1,
    ensures
        ({
            let v = (x0 + 2 * x1 + 4 * x2 + 8 * x3 + 16 * x4 + 32 * x5 + 64 * x6 + 128 * x7) as u8;
            &&& bit_of(v, 0) == x0
            &&& bit_of(v, 1) == x1
            &&& bit_of(v, 2) == x2
            &&& bit_of(v, 3) == x3
            &&& bit_of(v, 4) == x4
            &&& bit_of(v, 5) == x5
            &&& bit_of(v, 6) == x6
            &&& bit_of(v, 7) == x7
        }),
{
    let y6 = x6 + 2 * x7;
    let y5 = x5 + 2 * y6;
    let y4 = x4 + 2 * y5;
    let y3 = x3 + 2 * y4;
    let y2 = x2 + 2 * y3;
    let y1 = x1 + 2 * y2;
    let v = x0 + 2 * y1;
    assert(v < 256);
    assert(v % 2 == x0 && v / 2 == y1);
    assert(y1 % 2 == x1 && v / 4 == y2);
    assert(y2 % 2 == x2 && v / 8 == y3);
    assert(y3 % 2 == x3 && v / 16 == y4);
    assert(y4 % 2 == x4 && v / 32 == y5);
    assert(y5 % 2 == x5 && v / 64 == y6);
    assert(y6 % 2 == x6 && v / 128 == x7);
}

proof fn lemma_bitmap_bit(ids: Seq<u32>, file_count: nat, n: int)
    requires
        0 <= n < file_count,
    ensures
        bit_set(bitmap(ids, file_count), n) <==> bit(ids, n) == 1,
{
    let k = n / 8;
    let b = n % 8;
    assert(bitmap(ids, file_count)[k] == bitmap_byte(ids, k));
    lemma_bit_of(
        bit(ids, 8 * k),
        bit(ids, 8 * k + 1),
        bit(ids, 8 * k + 2),
        bit(ids, 8 * k + 3),
        bit(ids, 8 * k + 4),
        bit(ids, 8 * k + 5),
        bit(ids, 8 * k + 6),
        bit(ids, 8 * k + 7),
    );
    assert(n == 8 * k + b);
}

pub proof fn lemma_set_ids(bytes: Seq<u8>, n: nat)
    requires
        n <= 0x1_0000_0000,
    ensures
        ascending(set_ids(bytes, n)),
        forall|x: u32| #[trigger]
            set_ids(bytes, n).contains(x) <==> x < n && bit_set(bytes, x as int),
    decreases n,
{
    if n > 0 {
        let before = set_ids(bytes, (n - 1) as nat);
        lemma_set_ids(bytes, (n - 1) as nat);
        let all = set_ids(bytes, n);
        assert forall|i: int| 0 <= i < before.len() implies before[i] < n - 1 by {
            assert(before.contains(before[i]));
        }
        assert forall|x: u32| #[trigger] all.contains(x) <==> x < n && bit_set(
            bytes,
            x as int,
        ) by {
            if all.contains(x) {
                let i = choose|i: int| 0 <= i < all.len() && all[i] == x;
                if i < before.len() {
                    assert(before.contains(x));
                }
            }
            if x < n && bit_set(bytes, x as int) {
                if x == n - 1 {
                    assert(all.last() == x);
                } else {
                    assert(before.contains(x));
                    let i = choose|i: int| 0 <= i < before.len() && before[i] == x;
                    assert(all[i] == x);
                }
            }
        }
    }
}

proof fn lemma_bitmap_round_trip(ids: Seq<u32>, file_count: nat)
    requires
        storable(ids, file_count),
        file_count <= 0x1_0000_0000,
    ensures
        set_ids(bitmap(ids, file_count), file_count) == ids,
{
    let bytes = bitmap(ids, file_count);
    let found = set_ids(bytes, file_count);
    lemma_set_ids(bytes, file_count);
    assert forall|x: u32| found.contains(x) <==> ids.contains(x) by {
        if x < file_count {
            lemma_bitmap_bit(ids, file_count, x as int);
        }
        assert(found.contains(x) <==> x < file_count && bit_set(bytes, x as int));
        if ids.contains(x) {
            let i = choose|i: int| 0 <= i < ids.len() && ids[i] == x;
            assert(ids[i] < file_count);
        }
    }
    lemma_ascending_same(found, ids);
}

proof fn lemma_varint_round_trip(ids: Seq<u32>, i: int, file_count: nat)
    requires
        storable(ids, file_count),
        0 <= i <= ids.len(),
    ensures
        varint_ids(
            varints(ids, i),
            if i == 0 {
                None
            } else {
                Some(ids[i - 1] as nat)
            },
            file_count,
        ) == Ok::<Seq<u32>, Seq<char>>(ids.skip(i)),
    decreases ids.len() - i,
{
    if i < ids.len() {
        let rest = varints(ids, i + 1);
        if i > 0 {
            assert(ids[i - 1] < ids[i]);
        }
        let d = delta(ids, i) as u64;
        law_read_after_write(d, rest);
        let enc = leb128(d as nat);
        assert((enc + rest).skip(enc.len() as int) =~= rest);
        lemma_varint_round_trip(ids, i + 1, file_count);
        assert(varints(ids, i).len() > 0) by {
            reveal_with_fuel(leb128, 2);
        }
        assert(ids.skip(i) =~= seq![ids[i]] + ids.skip(i + 1));
        assert(ids[i] < file_count);
    } else {
        assert(ids.skip(i) =~= Seq::<u32>::empty());
    }
}

/// A stored list is read as what is kept of it.
pub proof fn law_list_round_trip(list: Listing, file_count: nat)
    requires
        list matches Listing::Ids(ids) ==> storable(ids, file_count),
        file_count <= 0x1_0000_0000,
    ensures
        read_list(
            list_encoding(list, file_count),
            list_bytes(list, file_count),
            list_count(list) as u64,
            file_count,
        ) == Ok::<Listing, Seq<char>>(kept(list, file_count)),
{
    match list {
        Listing::Dense(df) => {},
        Listing::Ids(ids) => {
            lemma_ascending_full(ids, file_count);
            match encoding_of(ids.len(), file_count) {
                Encoding::Varint => {
                    lemma_varint_round_trip(ids, 0, file_count);
                    assert(ids.skip(0) =~= ids);
                },
                Encoding::Bitmap => {
                    lemma_bitmap_round_trip(ids, file_count);
                },
                Encoding::Dense => {},
            }
        },
    }
}

/// Ascending ids of existing files, written as varints, are read back.
pub proof fn law_ids_decode_back(ids: Seq<u32>, file_count: nat)
    requires
        storable(ids, file_count),
    ensures
        varint_ids(varints(ids, 0), None, file_count) == Ok::<Seq<u32>, Seq<char>>(ids),
{
    lemma_varint_round_trip(ids, 0, file_count);
    assert(ids.skip(0) =~= ids);
}

/// What is read behind the first `i` ids.
pub open spec fn id_before(ids: Seq<u32>, i: int) -> Option<nat> {
    if i == 0 {
        None
    } else {
        Some(ids[i - 1] as nat)
    }
}

/// Reading the varint of id `i` with something behind it.
proof fn lemma_next_id(ids: Seq<u32>, i: int, rest: Seq<u8>, file_count: nat)
    requires
        ascending(ids),
        0 <= i < ids.len(),
    ensures
        ({
            let bytes = leb128(delta(ids, i)) + rest;
            varint_ids(bytes, id_before(ids, i), file_count) == if ids[i] >= file_count {
                Err("posting id out of range"@)
            } else {
                behind(seq![ids[i]], varint_ids(rest, id_before(ids, i + 1), file_count))
            }
        }),
{
    if i > 0 {
        assert(ids[i - 1] < ids[i]);
    }
    let d = delta(ids, i) as u64;
    law_read_after_write(d, rest);
    let enc = leb128(d as nat);
    assert((enc + rest).skip(enc.len() as int) =~= rest);
    assert(enc.len() > 0) by {
        reveal_with_fuel(leb128, 2);
    }
}

proof fn lemma_foreign_id(ids: Seq<u32>, i: int, k: int, file_count: nat)
    requires
        ascending(ids),
        0 <= i <= k < ids.len(),
        ids[k] >= file_count,
    ensures
        varint_ids(varints(ids, i), id_before(ids, i), file_count) is Err,
    decreases k - i,
{
    lemma_next_id(ids, i, varints(ids, i + 1), file_count);
    if i < k {
        lemma_foreign_id(ids, i + 1, k, file_count);
    }
}

/// Ids of which one is of no existing file are refused.
pub proof fn law_foreign_id_is_refused(ids: Seq<u32>, k: int, file_count: nat)
    requires
        ascending(ids),
        0 <= k < ids.len(),
        ids[k] >= file_count,
    ensures
        varint_ids(varints(ids, 0), None, file_count) is Err,
{
    lemma_foreign_id(ids, 0, k, file_count);
}

proof fn lemma_varints_split(ids: Seq<u32>, i: int, k: int)
    requires
        0 <= i <= k <= ids.len(),
    ensures
        varints(ids, i) == varints(ids.take(k), i) + varints(ids, k),
    decreases k - i,
{
    if i < k {
        lemma_varints_split(ids, i + 1, k);
        assert(delta(ids.take(k), i) == delta(ids, i));
        let (a, b, c) = (leb128(delta(ids, i)), varints(ids.take(k), i + 1), varints(ids, k));
        assert(a + (b + c) =~= (a + b) + c);
    } else {
        assert(varints(ids, i) =~= Seq::<u8>::empty() + varints(ids, k));
    }
}

proof fn lemma_unreadable_tail(ids: Seq<u32>, i: int, tail: Seq<u8>, file_count: nat)
    requires
        ascending(ids),
        0 <= i <= ids.len(),
        tail.len() > 0,
        leb128_head(tail) is None,
    ensures
        varint_ids(varints(ids, i) + tail, id_before(ids, i), file_count) is Err,
    decreases ids.len() - i,
{
    if i < ids.len() {
        let rest = varints(ids, i + 1);
        lemma_next_id(ids, i, rest + tail, file_count);
        assert(varints(ids, i) + tail =~= leb128(delta(ids, i)) + (rest + tail));
        lemma_unreadable_tail(ids, i + 1, tail, file_count);
    } else {
        assert(varints(ids, i) + tail =~= tail);
    }
}

/// Varints that are cut off at `m`, in the middle of that of id `k`, are
/// refused.
pub proof fn law_cut_postings_are_refused(ids: Seq<u32>, k: int, m: int, file_count: nat)
    requires
        ascending(ids),
        0 <= k < ids.len(),
        varints(ids.take(k), 0).len() < m < varints(ids.take(k + 1), 0).len(),
    ensures
        varint_ids(varints(ids, 0).take(m), None, file_count) is Err,
{
    let front = varints(ids.take(k), 0);
    let enc = leb128(delta(ids, k));
    let cut = m - front.len();
    lemma_varints_split(ids, 0, k);
    lemma_varints_split(ids.take(k + 1), 0, k);
    assert(ids.take(k + 1).take(k) =~= ids.take(k));
    assert(delta(ids.take(k + 1), k) == delta(ids, k));
    assert(varints(ids.take(k + 1), k + 1) =~= Seq::<u8>::empty());
    assert(varints(ids.take(k + 1), k) =~= enc);
    if k > 0 {
        assert(ids[k - 1] < ids[k]);
    }
    law_cut_value_is_not_read(delta(ids, k) as u64, cut);
    assert(varints(ids, 0).take(m) =~= front + enc.take(cut));
    assert forall|i: int, j: int| 0 <= i < j < k implies ids.take(k)[i] < ids.take(k)[j] by {
        assert(ids[i] < ids[j]);
    }
    lemma_unreadable_tail(ids.take(k), 0, enc.take(cut), file_count);
}

/// No bytes are no ids.
pub proof fn law_no_bytes_are_no_ids(file_count: nat)
    ensures
        varint_ids(Seq::empty(), None, file_count) == Ok::<Seq<u32>, Seq<char>>(Seq::empty()),
{
}

/// Storing a list never loses a file: what is kept is dense or the list.
pub proof fn law_kept_loses_no_file(ids: Seq<u32>, file_count: nat)
    requires
        storable(ids, file_count),
        file_count <= 0x1_0000_0000,
    ensures
        match kept(Listing::Ids(ids), file_count) {
            Listing::Dense(df) => df == ids.len(),
            Listing::Ids(read) => read == ids,
        },
{
    lemma_ascending_full(ids, file_count);
    if ids.len() == file_count {
        assert(all_ids(file_count) =~= ids);
    }
}

/// Whether ids are ascending ids of existing files.
fn is_storable(ids: &Vec<u32>, file_count: usize) -> (r: bool)
    ensures
        r == storable(ids@, file_count as nat),
{
    for i in 0..ids.len()
        invariant
            forall|a: int, b: int| 0 <= a < b < i ==> ids@[a] < ids@[b],
            forall|a: int| 0 <= a < i ==> #[trigger] ids@[a] < file_count,
    {
        if ids[i] as u64 >= file_count as u64 {
            return false;
        }
        if i > 0 && ids[i - 1] >= ids[i] {
            assert(ids@[i - 1] >= ids@[i as int]);
            return false;
        }
    }
    true
}

/// Encode ids as deltas in LEB128.
fn encode_varints(ids: &Vec<u32>) -> (out: Vec<u8>)
    requires
        ascending(ids@),
    ensures
        out@ == varints(ids@, 0),
{
    let mut out: Vec<u8> = Vec::new();
    for i in 0..ids.len()
        invariant
            ascending(ids@),
            out@ + varints(ids@, i as int) == varints(ids@, 0),
    {
        let d: u32 = if i == 0 {
            ids[0]
        } else {
            ids[i] - ids[i - 1]
        };
        let ghost before = out@;
        write_u64(&mut out, d as u64);
        assert(out@ + varints(ids@, i + 1) =~= before + (leb128(delta(ids@, i as int)) + varints(
            ids@,
            i + 1,
        )));
    }
    assert(out@ + varints(ids@, ids@.len() as int) =~= out@);
    out
}

/// The bit for id `n`; moves `p` past it.
fn take_bit(ids: &Vec<u32>, p: &mut usize, n: u64) -> (r: u8)
    requires
        ascending(ids@),
        *old(p) <= ids@.len(),
        forall|i: int| 0 <= i < *old(p) ==> ids@[i] < n,
        forall|i: int| *old(p) <= i < ids@.len() ==> ids@[i] >= n,
    ensures
        r == bit(ids@, n as int),
        *final(p) <= ids@.len(),
        forall|i: int| 0 <= i < *final(p) ==> ids@[i] < n + 1,
        forall|i: int| *final(p) <= i < ids@.len() ==> ids@[i] >= n + 1,
{
    if *p < ids.len() && ids[*p] as u64 == n {
        assert(ids@[*p as int] == n);
        *p = *p + 1;
        1
    } else {
        0
    }
}

fn encode_bitmap(ids: &Vec<u32>, file_count: usize) -> (out: Vec<u8>)
    requires
        ascending(ids@),
        file_count <= 0x10_0000_0000,
    ensures
        out@ == bitmap(ids@, file_count as nat),
{
    let len: usize = file_count / 8 + if file_count % 8 == 0 {
        0
    } else {
        1
    };
    let mut out: Vec<u8> = Vec::new();
    let mut p: usize = 0;
    let mut n: u64 = 0;
    for k in 0..len
        invariant
            len == bitmap_len(file_count as nat),
            file_count <= 0x10_0000_0000,
            ascending(ids@),
            p <= ids@.len(),
            n == 8 * k,
            forall|i: int| 0 <= i < p ==> ids@[i] < n,
            forall|i: int| p <= i < ids@.len() ==> ids@[i] >= n,
            out@.len() == k,
            forall|j: int| 0 <= j < k ==> #[trigger] out@[j] == bitmap_byte(ids@, j),
    {
        assert(n + 8 <= file_count + 8);
        let b0: u8 = take_bit(ids, &mut p, n);
        let b1: u8 = take_bit(ids, &mut p, n + 1);
        let b2: u8 = take_bit(ids, &mut p, n + 2);
        let b3: u8 = take_bit(ids, &mut p, n + 3);
        let b4: u8 = take_bit(ids, &mut p, n + 4);
        let b5: u8 = take_bit(ids, &mut p, n + 5);
        let b6: u8 = take_bit(ids, &mut p, n + 6);
        let b7: u8 = take_bit(ids, &mut p, n + 7);
        out.push(b0 + 2 * b1 + 4 * b2 + 8 * b3 + 16 * b4 + 32 * b5 + 64 * b6 + 128 * b7);
        n = n + 8;
    }
    assert(out@ =~= bitmap(ids@, file_count as nat));
    out
}

fn encoding_for(df: usize, file_count: usize) -> (r: Encoding)
    ensures
        r == encoding_of(df as nat, file_count as nat),
{
    if df as u128 * 4 > file_count as u128 * 3 {
        Encoding::Dense
    } else if df as u128 * 8 > file_count as u128 {
        Encoding::Bitmap
    } else {
        Encoding::Varint
    }
}

/// Encode a list. None when its ids are not ascending ids of existing files.
pub fn encode_list(list: &Postings, file_count: usize) -> (r: Option<(Encoding, Vec<u8>)>)
    ensures
        match r {
            Some((e, b)) => (list@ matches Listing::Ids(ids) ==> storable(
                ids,
                file_count as nat,
            )) && e == list_encoding(list@, file_count as nat) && b@ == list_bytes(
                list@,
                file_count as nat,
            ),
            None => list@ matches Listing::Ids(ids) && !storable(ids, file_count as nat),
        },
{
    match list {
        Postings::Dense(_) => {
            let none: Vec<u8> = Vec::new();
            Some((Encoding::Dense, none))
        },
        Postings::Ids(ids) => {
            if !is_storable(ids, file_count) {
                return None;
            }
            let e = encoding_for(ids.len(), file_count);
            proof {
                lemma_ascending_full(ids@, 0x1_0000_0000);
            }
            let b = match e {
                Encoding::Varint => encode_varints(ids),
                Encoding::Bitmap => encode_bitmap(ids, file_count),
                Encoding::Dense => Vec::new(),
            };
            Some((e, b))
        },
    }
}

/// `ids` before a result.
pub open spec fn behind(ids: Seq<u32>, r: Result<Seq<u32>, Seq<char>>) -> Result<
    Seq<u32>,
    Seq<char>,
> {
    match r {
        Ok(rest) => Ok(ids + rest),
        Err(e) => Err(e),
    }
}

/// The ids that varints stand for.
pub fn decode_postings(bytes: &[u8], file_count: usize) -> (r: Result<Vec<u32>, IndexError>)
    ensures
        match r {
            Ok(ids) => varint_ids(bytes@, None, file_count as nat) == Ok::<Seq<u32>, Seq<char>>(
                ids@,
            ),
            Err(IndexError::Corrupt(what)) => varint_ids(bytes@, None, file_count as nat) == Err::<
                Seq<u32>,
                Seq<char>,
            >(what@),
            Err(_) => false,
        },
{
    let ghost whole = varint_ids(bytes@, None, file_count as nat);
    let mut ids: Vec<u32> = Vec::new();
    let mut pos: usize = 0;
    let mut prev: u64 = 0;
    let mut first = true;
    proof {
        assert(bytes@.skip(0) =~= bytes@);
        match whole {
            Ok(x) => {
                assert(ids@ + x =~= x);
            },
            Err(_) => {},
        }
    }
    while pos < bytes.len()
        invariant
            pos <= bytes@.len(),
            whole == varint_ids(bytes@, None, file_count as nat),
            first ==> prev == 0,
            prev < file_count || first,
            whole == behind(
                ids@,
                varint_ids(
                    bytes@.skip(pos as int),
                    if first {
                        None
                    } else {
                        Some(prev as nat)
                    },
                    file_count as nat,
                ),
            ),
        decreases bytes@.len() - pos,
    {
        let ghost rest = bytes@.skip(pos as int);
        match read_u64(bytes, pos) {
            None => {
                return Err(IndexError::Corrupt("truncated postings"));
            },
            Some((d, np)) => {
                if d >= file_count as u64 - prev || prev + d > u32::MAX as u64 {
                    return Err(IndexError::Corrupt("posting id out of range"));
                }
                let id: u64 = prev + d;
                let ghost n = np - pos;
                let ghost tail = varint_ids(rest.skip(n), Some(id as nat), file_count as nat);
                let ghost before = ids@;
                assert(rest.skip(n) =~= bytes@.skip(np as int));
                pos = np;
                first = false;
                ids.push(id as u32);
                prev = id;
                assert(whole == behind(ids@, tail)) by {
                    match tail {
                        Ok(x) => {
                            assert(before + (seq![id as u32] + x) =~= ids@ + x);
                        },
                        Err(_) => {},
                    }
                }
            },
        }
    }
    assert(bytes@.skip(pos as int) =~= Seq::<u8>::empty());
    assert(ids@ + Seq::<u32>::empty() =~= ids@);
    Ok(ids)
}

fn decode_bitmap(bytes: &[u8], file_count: usize) -> (ids: Vec<u32>)
    requires
        bytes@.len() == bitmap_len(file_count as nat),
        file_count <= 0x1_0000_0000,
    ensures
        ids@ == set_ids(bytes@, file_count as nat),
{
    let mut ids: Vec<u32> = Vec::new();
    let mut v: u8 = 0;
    for n in 0..file_count
        invariant
            bytes@.len() == bitmap_len(file_count as nat),
            file_count <= 0x1_0000_0000,
            ids@ == set_ids(bytes@, n as nat),
            n % 8 != 0 ==> rest_bits(bytes@[n as int / 8], n as int % 8) == v,
    {
        if n % 8 == 0 {
            v = bytes[n / 8];
        }
        if v % 2 == 1 {
            ids.push(n as u32);
        }
        v = v / 2;
    }
    ids
}

/// A byte without its `b` low bits.
pub open spec fn rest_bits(v: u8, b: int) -> int {
    if b == 0 {
        v as int
    } else if b == 1 {
        v as int / 2
    } else if b == 2 {
        v as int / 4
    } else if b == 3 {
        v as int / 8
    } else if b == 4 {
        v as int / 16
    } else if b == 5 {
        v as int / 32
    } else if b == 6 {
        v as int / 64
    } else {
        v as int / 128
    }
}

/// Decode a stored list.
pub fn decode_list(encoding: Encoding, bytes: &[u8], count: u64, file_count: usize) -> (r: Result<
    Postings,
    IndexError,
>)
    requires
        file_count <= 0x1_0000_0000,
    ensures
        match r {
            Ok(list) => read_list(encoding, bytes@, count, file_count as nat) == Ok::<
                Listing,
                Seq<char>,
            >(list@),
            Err(IndexError::Corrupt(what)) => read_list(encoding, bytes@, count, file_count as nat)
                == Err::<Listing, Seq<char>>(what@),
            Err(_) => false,
        },
{
    match encoding {
        Encoding::Varint => match decode_postings(bytes, file_count) {
            Ok(ids) => Ok(Postings::Ids(ids)),
            Err(e) => Err(e),
        },
        Encoding::Bitmap => {
            let len: usize = file_count / 8 + if file_count % 8 == 0 {
                0
            } else {
                1
            };
            if bytes.len() == len {
                Ok(Postings::Ids(decode_bitmap(bytes, file_count)))
            } else {
                Err(IndexError::Corrupt("bad bitmap length"))
            }
        },
        Encoding::Dense => if count == file_count as u64 {
            let mut ids: Vec<u32> = Vec::new();
            for i in 0..file_count
                invariant
                    file_count <= 0x1_0000_0000,
                    ids@.len() == i,
                    forall|k: int| 0 <= k < i ==> ids@[k] == k,
            {
                ids.push(i as u32);
            }
            assert(ids@ =~= all_ids(file_count as nat));
            Ok(Postings::Ids(ids))
        } else {
            Ok(Postings::Dense(count))
        },
    }
}

} // verus!
