//! Byte trigrams. A trigram is 3 consecutive bytes packed into a u32
//! (big-endian-ish: b0 is the high byte) so they sort in byte order.

use crate::text::string_of;
use vstd::prelude::*;

verus! {

pub const NUL_PROBE: usize = 8192;

/// The packed form of three bytes.
pub open spec fn packed(b0: u8, b1: u8, b2: u8) -> u32 {
    (b0 * 65536 + b1 * 256 + b2) as u32
}

/// The trigram that starts at offset `i` of `s`.
pub open spec fn trigram_at(s: Seq<u8>, i: int) -> u32 {
    packed(s[i], s[i + 1], s[i + 2])
}

/// The trigrams of `s`, in order of appearance.
pub open spec fn windows(s: Seq<u8>) -> Seq<u32> {
    Seq::new(if s.len() < 3 { 0 } else { (s.len() - 2) as nat }, |i: int| trigram_at(s, i))
}

/// The set of the trigrams that `s` contains.
pub open spec fn trigrams(s: Seq<u8>) -> Set<u32> {
    Set::new(|t: u32| exists|i: int| 0 <= i < s.len() - 2 && t == #[trigger] trigram_at(s, i))
}

/// Every element is greater than those before it.
pub open spec fn ascending(s: Seq<u32>) -> bool {
    forall|i: int, j: int| 0 <= i < j < s.len() ==> s[i] < s[j]
}

#[inline]
pub fn pack(b0: u8, b1: u8, b2: u8) -> (t: u32)
    ensures
        t == packed(b0, b1, b2),
        t < 0x100_0000,
{
    assert(((b0 as u32) << 16u32) | ((b1 as u32) << 8u32) | (b2 as u32) == b0 * 65536 + b1 * 256
        + b2) by (bit_vector);
    ((b0 as u32) << 16) | ((b1 as u32) << 8) | (b2 as u32)
}

#[inline]
pub fn pack_str(s: &[u8]) -> (t: u32)
    requires
        s@.len() == 3,
    ensures
        t == trigram_at(s@, 0),
        t < 0x100_0000,
{
    pack(s[0], s[1], s[2])
}

/// The three bytes that a trigram packs.
pub open spec fn unpacked(t: u32) -> Seq<u8> {
    seq![(t / 65536 % 256) as u8, (t / 256 % 256) as u8, (t % 256) as u8]
}

/// Packing and unpacking undo each other.
pub proof fn law_pack_unpack(b0: u8, b1: u8, b2: u8, t: u32)
    ensures
        unpacked(packed(b0, b1, b2)) == seq![b0, b1, b2],
        t < 0x100_0000 ==> trigram_at(unpacked(t), 0) == t,
{
    let p = packed(b0, b1, b2);
    assert(p / 256 == b0 * 256 + b1);
    assert(p / 65536 == b0);
    assert(p % 256 == b2);
    assert(p / 256 % 256 == b1);
    assert(unpacked(p) =~= seq![b0, b1, b2]);
    if t < 0x100_0000 {
        let (hi, mid, lo) = (t / 65536, t / 256 % 256, t % 256);
        assert(t / 256 == hi * 256 + mid);
        assert(t == (t / 256) * 256 + lo);
        assert(hi < 256);
    }
}

/// Packed trigrams sort as their bytes do.
pub proof fn law_pack_keeps_byte_order(a0: u8, a1: u8, a2: u8, b0: u8, b1: u8, b2: u8)
    ensures
        packed(a0, a1, a2) < packed(b0, b1, b2) <==> (a0 < b0 || (a0 == b0 && (a1 < b1 || (a1 == b1
            && a2 < b2)))),
{
}

/// A lower-case hexadecimal digit.
pub open spec fn hex_digit(d: int) -> char {
    if d < 10 {
        (48 + d) as char
    } else {
        (87 + d) as char
    }
}

/// How one byte of a trigram is shown: itself when it is an ASCII graphic
/// character or a space, a hex escape otherwise.
pub open spec fn byte_display(b: u8) -> Seq<char> {
    if 0x20 <= b <= 0x7e {
        seq![b as char]
    } else {
        seq!['\\', 'x', hex_digit(b as int / 16), hex_digit(b as int % 16)]
    }
}

/// How a trigram is shown.
pub open spec fn trigram_display(t: u32) -> Seq<char> {
    byte_display(unpacked(t)[0]) + byte_display(unpacked(t)[1]) + byte_display(unpacked(t)[2])
}

pub(crate) fn hex_char(d: u8) -> (c: char)
    requires
        d < 16,
    ensures
        c == hex_digit(d as int),
{
    if d < 10 {
        (48 + d) as char
    } else {
        (87 + d) as char
    }
}

fn push_byte_display(out: &mut Vec<char>, b: u8)
    ensures
        final(out)@ == old(out)@ + byte_display(b),
{
    if 0x20 <= b && b <= 0x7e {
        out.push(b as char);
    } else {
        out.push('\\');
        out.push('x');
        out.push(hex_char(b / 16));
        out.push(hex_char(b % 16));
    }
}

/// `unpack_display` as characters, appended to `out`.
pub(crate) fn push_display(out: &mut Vec<char>, t: u32)
    ensures
        final(out)@ == old(out)@ + trigram_display(t),
{
    push_byte_display(out, (t / 65536 % 256) as u8);
    push_byte_display(out, (t / 256 % 256) as u8);
    push_byte_display(out, (t % 256) as u8);
}

/// Human-readable form for debugging ("abc" or hex escapes).
pub fn unpack_display(t: u32) -> (s: String)
    ensures
        s@ == trigram_display(t),
{
    let mut out: Vec<char> = Vec::new();
    push_display(&mut out, t);
    assert(out@ =~= trigram_display(t));
    string_of(&out)
}

/// Whether data counts as binary: a NUL byte near its start.
pub open spec fn is_binary(data: Seq<u8>) -> bool {
    exists|i: int| 0 <= i < data.len() && i < NUL_PROBE && data[i] == 0
}

/// True if the buffer smells like binary: a NUL byte in the first 8 KiB.
pub fn looks_binary(data: &[u8]) -> (r: bool)
    ensures
        r == is_binary(data@),
{
    let mut i: usize = 0;
    while i < data.len() && i < NUL_PROBE
        invariant
            i <= data@.len(),
            i <= NUL_PROBE,
            forall|j: int| 0 <= j < i ==> data@[j] != 0,
        decreases data@.len() - i,
    {
        if data[i] == 0 {
            return true;
        }
        i += 1;
    }
    false
}

/// `slice::sort_unstable` on integers: the same values, in ascending order.
#[verifier::external_body]
pub(crate) fn sort_ascending(v: &mut Vec<u64>)
    ensures
        final(v)@.to_multiset() == old(v)@.to_multiset(),
        forall|i: int, j: int| 0 <= i <= j < final(v)@.len() ==> final(v)@[i] <= final(v)@[j],
{
    v.sort_unstable()
}

/// Collect the distinct trigrams of `data`, sorted ascending.
pub fn extract_sorted(data: &[u8]) -> (tris: Vec<u32>)
    ensures
        ascending(tris@),
        tris@.to_set() == trigrams(data@),
{
    let mut all: Vec<u64> = Vec::new();
    let n: usize = if data.len() < 3 {
        0
    } else {
        data.len() - 2
    };
    let mut i: usize = 0;
    while i < n
        invariant
            n == if data@.len() < 3 {
                0
            } else {
                data@.len() - 2
            },
            all@.len() == i,
            i <= n,
            forall|k: int| 0 <= k < i ==> all@[k] == trigram_at(data@, k),
        decreases n - i,
    {
        all.push(pack(data[i], data[i + 1], data[i + 2]) as u64);
        i += 1;
    }
    let ghost found = all@;
    sort_ascending(&mut all);
    proof {
        found.to_multiset_ensures();
        all@.to_multiset_ensures();
        assert forall|t: u64| found.contains(t) <==> all@.contains(t) by {
            assert(found.to_multiset().count(t) == all@.to_multiset().count(t));
        }
        assert forall|k: int| 0 <= k < all@.len() implies all@[k] < 0x100_0000 by {
            assert(all@.contains(all@[k]));
            assert(found.contains(all@[k]));
            let w = choose|w: int| 0 <= w < found.len() && found[w] == all@[k];
            assert(found[w] == trigram_at(data@, w));
        }
    }
    let mut tris: Vec<u32> = Vec::new();
    let mut j: usize = 0;
    while j < all.len()
        invariant
            j <= all@.len(),
            forall|a: int, b: int| 0 <= a <= b < all@.len() ==> all@[a] <= all@[b],
            forall|k: int| 0 <= k < all@.len() ==> all@[k] < 0x100_0000,
            ascending(tris@),
            j == 0 ==> tris@.len() == 0,
            j > 0 ==> tris@.len() > 0 && tris@.last() == all@[j - 1],
            forall|t: u32| tris@.contains(t) ==> exists|k: int| 0 <= k < j && all@[k] == t,
            forall|k: int| 0 <= k < j ==> tris@.contains(#[trigger] all@[k] as u32),
        decreases all@.len() - j,
    {
        let t: u32 = all[j] as u32;
        let ghost before = tris@;
        if tris.len() == 0 || tris[tris.len() - 1] != t {
            tris.push(t);
            assert forall|k: int| 0 <= k < j + 1 implies tris@.contains(
                #[trigger] all@[k] as u32,
            ) by {
                if k < j {
                    let w = choose|w: int| 0 <= w < before.len() && before[w] == all@[k] as u32;
                    assert(tris@[w] == all@[k] as u32);
                } else {
                    assert(tris@.last() == t);
                }
            }
            assert forall|u: u32| tris@.contains(u) implies exists|k: int|
                0 <= k < j + 1 && all@[k] == u by {
                let w = choose|w: int| 0 <= w < tris@.len() && tris@[w] == u;
                if w < before.len() {
                    assert(before.contains(u));
                } else {
                    assert(all@[j as int] == u);
                }
            }
        } else {
            assert(tris@[tris@.len() - 1] == t);
        }
        j += 1;
    }
    proof {
        assert forall|t: u32| tris@.to_set().contains(t) <==> trigrams(data@).contains(t) by {
            if tris@.contains(t) {
                let k = choose|k: int| 0 <= k < all@.len() && all@[k] == t;
                assert(all@.contains(t as u64));
                assert(found.contains(t as u64));
                let w = choose|w: int| 0 <= w < found.len() && found[w] == t as u64;
                assert(trigram_at(data@, w) == t);
            }
            if trigrams(data@).contains(t) {
                let w = choose|w: int|
                    0 <= w < data@.len() - 2 && t == #[trigger] trigram_at(data@, w);
                assert(found[w] == t as u64);
                assert(found.contains(t as u64));
                assert(all@.contains(t as u64));
                let k = choose|k: int| 0 <= k < all@.len() && all@[k] == t as u64;
                assert(tris@.contains(all@[k] as u32));
            }
        }
        assert(tris@.to_set() =~= trigrams(data@));
    }
    tris
}

/// All trigrams of a (>=3 byte) string, in order of appearance (with duplicates).
pub fn of_str(s: &[u8]) -> (out: Vec<u32>)
    ensures
        out@ == windows(s@),
{
    let mut out: Vec<u32> = Vec::new();
    let n: usize = if s.len() < 3 {
        0
    } else {
        s.len() - 2
    };
    let mut i: usize = 0;
    while i < n
        invariant
            n == if s@.len() < 3 {
                0
            } else {
                s@.len() - 2
            },
            out@.len() == i,
            i <= n,
            forall|k: int| 0 <= k < i ==> out@[k] == trigram_at(s@, k),
        decreases n - i,
    {
        out.push(pack(s[i], s[i + 1], s[i + 2]));
        i += 1;
    }
    assert(out@ =~= windows(s@));
    out
}

} // verus!
