//! LEB128 variable-length integers for posting lists.

use vstd::arithmetic::power2::{lemma2_to64, lemma_pow2_adds, pow2};
use vstd::prelude::*;

verus! {

/// The LEB128 form of `v`: seven bits a byte, least significant first, with
/// the high bit set on every byte but the last.
pub open spec fn leb128(v: nat) -> Seq<u8>
    decreases v,
{
    if v < 128 {
        seq![v as u8]
    } else {
        seq![(v % 128 + 128) as u8] + leb128(v / 128)
    }
}

/// The number of bytes up to and with the first byte whose high bit is clear.
pub open spec fn group_len(s: Seq<u8>) -> Option<nat>
    decreases s.len(),
{
    if s.len() == 0 {
        None
    } else if s[0] < 0x80 {
        Some(1)
    } else {
        match group_len(s.drop_first()) {
            Some(n) => Some(n + 1),
            None => None,
        }
    }
}

/// The value of a group of bytes: the low seven bits of each, least
/// significant first.
pub open spec fn group_value(s: Seq<u8>) -> nat
    decreases s.len(),
{
    if s.len() == 0 {
        0
    } else {
        (s[0] % 128) as nat + 128 * group_value(s.drop_first())
    }
}

/// What is read at the head of `s`: the value modulo 2^64 and the number of
/// bytes it takes, or nothing when no group of at most ten bytes starts there.
pub open spec fn leb128_head(s: Seq<u8>) -> Option<(u64, nat)> {
    match group_len(s) {
        Some(n) => if n <= 10 {
            Some(((group_value(s.take(n as int)) % 0x1_0000_0000_0000_0000) as u64, n))
        } else {
            None
        },
        None => None,
    }
}

/// Append `v` to `out` as LEB128.
pub fn write_u64(out: &mut Vec<u8>, v: u64)
    ensures
        final(out)@ == old(out)@ + leb128(v as nat),
{
    let mut v: u64 = v;
    let ghost start = out@;
    let ghost whole = v;
    loop
        invariant_except_break
            start + leb128(whole as nat) == out@ + leb128(v as nat),
        ensures
            out@ == start + leb128(whole as nat),
        decreases v,
    {
        let b: u8 = (v & 0x7f) as u8;
        let ghost before = v;
        assert((v & 0x7f) as u8 == v % 128 && v >> 7 == v / 128) by (bit_vector);
        v = v >> 7;
        if v == 0 {
            out.push(b);
            assert(leb128(before as nat) == seq![b]);
            break;
        }
        assert(b < 0x80 ==> b | 0x80 == b + 0x80) by (bit_vector);
        out.push(b | 0x80);
        assert(leb128(before as nat) == seq![(b | 0x80) as u8] + leb128(v as nat));
    }
}

proof fn lemma_value_push(s: Seq<u8>, b: u8)
    ensures
        group_value(s.push(b)) == group_value(s) + (b % 128) * pow2(7 * s.len()),
    decreases s.len(),
{
    if s.len() == 0 {
        lemma2_to64();
        assert(s.push(b).drop_first() =~= s);
        assert((b % 128) * 1 == b % 128);
    } else {
        let t = s.drop_first();
        assert(s.push(b).drop_first() =~= t.push(b));
        lemma_value_push(t, b);
        lemma_pow2_adds(7, 7 * t.len());
        lemma2_to64();
        let p = pow2(7 * t.len());
        assert(pow2(7 * s.len()) == 128 * p);
        let x = (b % 128) as nat;
        assert(128 * (x * p) == x * (128 * p)) by (nonlinear_arith);
    }
}

proof fn lemma_value_bound(s: Seq<u8>)
    ensures
        group_value(s) < pow2(7 * s.len()),
    decreases s.len(),
{
    if s.len() == 0 {
        lemma2_to64();
    } else {
        let t = s.drop_first();
        lemma_value_bound(t);
        lemma_pow2_adds(7, 7 * t.len());
        lemma2_to64();
    }
}

/// No group starts in a run of continuation bytes before its end.
proof fn lemma_group_len_skip(s: Seq<u8>, k: int)
    requires
        0 <= k <= s.len(),
        forall|i: int| 0 <= i < k ==> s[i] >= 0x80,
    ensures
        group_len(s) == match group_len(s.skip(k)) {
            Some(n) => Some((n + k) as nat),
            None => None,
        },
    decreases k,
{
    if k == 0 {
        assert(s.skip(0) =~= s);
    } else {
        lemma_group_len_skip(s.drop_first(), k - 1);
        assert(s.drop_first().skip(k - 1) =~= s.skip(k));
    }
}

/// One step of reading: a shifted group joins the bits gathered before it.
proof fn lemma_step(v: u64, b: u8, k: nat)
    requires
        k <= 9,
        v < pow2(7 * k),
    ensures
        (v | (((b & 0x7f) as u64) << ((7 * k) as u32))) as nat == (v + (b % 128) * pow2(7 * k))
            % 0x1_0000_0000_0000_0000,
        k <= 8 ==> (v | (((b & 0x7f) as u64) << ((7 * k) as u32))) as nat == v + (b % 128) * pow2(
            7 * k,
        ),
{
    let shift = (7 * k) as u64;
    let x = (b & 0x7f) as u64;
    assert(b & 0x7f == b % 128) by (bit_vector);
    lemma2_to64();
    vstd::bits::lemma_u64_pow2_no_overflow(7 * k);
    vstd::bits::lemma_u64_shl_is_mul(1, shift);
    let p = pow2(7 * k);
    assert(1u64 << shift == p);
    let shift32 = (7 * k) as u32;
    assert(x << shift == x << shift32);
    assert(v | (x << shift) == v + (x << shift)) by (bit_vector)
        requires
            v < (1u64 << shift),
            shift <= 63,
    ;
    if k <= 8 {
        vstd::arithmetic::power2::lemma_pow2_adds(7, 7 * k);
        vstd::bits::lemma_u64_pow2_no_overflow((7 + 7 * k) as nat);
        assert(x * p <= 127 * p) by (nonlinear_arith)
            requires
                x <= 127,
        ;
        assert(127 * p <= 128 * p);
        vstd::bits::lemma_u64_shl_is_mul(x, shift);
        assert(v + x * p < 128 * p);
    } else {
        assert(x << 63u64 == (x % 2) * 0x8000_0000_0000_0000) by (bit_vector);
        assert(p == 0x8000_0000_0000_0000) by {
            lemma_pow2_adds(32, 31);
        }
    }
}

/// Read one LEB128 value from `buf` starting at `pos`.
/// Returns (value, new_pos). None on truncated/overlong input.
pub fn read_u64(buf: &[u8], pos: usize) -> (r: Option<(u64, usize)>)
    ensures
        pos > buf@.len() ==> r is None,
        pos <= buf@.len() ==> match r {
            Some((v, np)) => pos < np <= buf@.len() && leb128_head(buf@.skip(pos as int)) == Some(
                (v, (np - pos) as nat),
            ),
            None => leb128_head(buf@.skip(pos as int)) is None,
        },
{
    if pos > buf.len() {
        return None;
    }
    let ghost s = buf@.skip(pos as int);
    let mut at: usize = pos;
    let mut v: u64 = 0;
    let mut shift: u32 = 0;
    proof {
        lemma2_to64();
    }
    loop
        invariant
            pos <= at <= buf@.len(),
            s == buf@.skip(pos as int),
            at - pos <= 10,
            shift == 7 * (at - pos),
            forall|i: int| 0 <= i < at - pos ==> s[i] >= 0x80,
            at - pos <= 9 ==> v == group_value(s.take(at - pos)) && v < pow2(shift as nat),
        decreases buf@.len() - at,
    {
        let ghost k = (at - pos) as nat;
        proof {
            lemma_group_len_skip(s, k as int);
        }
        if at >= buf.len() {
            return None;
        }
        let b: u8 = buf[at];
        assert(b == s[k as int] && b == s.skip(k as int)[0]);
        at = at + 1;
        if shift >= 64 {
            return None;
        }
        proof {
            lemma_step(v, b, k);
            lemma_value_push(s.take(k as int), b);
            assert(s.take(k as int).push(b) =~= s.take(k as int + 1));
            lemma_value_bound(s.take(k as int + 1));
        }
        v = v | (((b & 0x7f) as u64) << shift);
        assert(b & 0x80 == 0 <==> b < 0x80) by (bit_vector);
        if b & 0x80 == 0 {
            return Some((v, at));
        }
        shift = shift + 7;
    }
}

/// What is written is what is read, whatever stands behind it.
pub proof fn law_read_after_write(v: u64, rest: Seq<u8>)
    ensures
        leb128_head(leb128(v as nat) + rest) == Some((v, leb128(v as nat).len())),
{
    lemma_leb128_group(v as nat, rest);
    let enc = leb128(v as nat);
    assert((enc + rest).take(enc.len() as int) =~= enc);
    lemma2_to64();
    lemma_pow2_adds(63, 7);
    lemma_pow2_adds(32, 31);
    lemma_leb128_len(v as nat, 10);
}

proof fn lemma_leb128_group(v: nat, rest: Seq<u8>)
    ensures
        group_len(leb128(v) + rest) == Some(leb128(v).len()),
        group_value(leb128(v)) == v,
        leb128(v).len() >= 1,
    decreases v,
{
    let enc = leb128(v);
    if v < 128 {
        assert(enc.drop_first() =~= Seq::<u8>::empty());
        assert(enc[0] == v);
        assert(group_value(enc.drop_first()) == 0);
    } else {
        let tail = leb128(v / 128);
        lemma_leb128_group(v / 128, rest);
        assert((enc + rest).drop_first() =~= tail + rest);
        assert(enc.drop_first() =~= tail);
        assert(enc[0] == v % 128 + 128);
        assert(enc[0] % 128 == v % 128);
        assert(v == v % 128 + 128 * (v / 128));
    }
}

proof fn lemma_cut_has_no_end(v: nat, m: int)
    requires
        0 <= m < leb128(v).len(),
    ensures
        group_len(leb128(v).take(m)) is None,
    decreases v,
{
    let enc = leb128(v);
    if m > 0 && v >= 128 {
        lemma_cut_has_no_end(v / 128, m - 1);
        assert(enc.take(m).drop_first() =~= leb128(v / 128).take(m - 1));
        assert(enc.take(m)[0] == (v % 128 + 128) as u8);
    }
}

/// A value that is cut off is not read.
pub proof fn law_cut_value_is_not_read(v: u64, m: int)
    requires
        0 <= m < leb128(v as nat).len(),
    ensures
        leb128_head(leb128(v as nat).take(m)) is None,
{
    lemma_cut_has_no_end(v as nat, m);
}

/// A value below 2^(7k) takes at most k bytes, k at least 1.
pub proof fn lemma_leb128_len(v: nat, k: nat)
    requires
        k >= 1,
        v < pow2(7 * k),
    ensures
        leb128(v).len() <= k,
    decreases k,
{
    lemma2_to64();
    if v >= 128 {
        assert(k >= 2) by {
            if k == 1 {
                assert(pow2(7) == 128);
            }
        }
        lemma_pow2_adds(7, (7 * (k - 1)) as nat);
        lemma_leb128_len(v / 128, (k - 1) as nat);
    }
}

/// A written value starts with no byte of a run that another value's form
/// could end in: two values with the same form are the same.
pub proof fn law_leb128_injective(a: nat, b: nat)
    requires
        leb128(a) == leb128(b),
    ensures
        a == b,
{
    lemma_leb128_group(a, Seq::<u8>::empty());
    lemma_leb128_group(b, Seq::<u8>::empty());
}

} // verus!
