//! Little-endian integers and byte strings laid end to end.

use vstd::prelude::*;

verus! {

/// The `n` low bytes of `x`, least significant first.
pub open spec fn le(x: nat, n: nat) -> Seq<u8>
    decreases n,
{
    if n == 0 {
        Seq::empty()
    } else {
        seq![(x % 256) as u8] + le(x / 256, (n - 1) as nat)
    }
}

/// The number that bytes stand for, least significant first.
pub open spec fn from_le(s: Seq<u8>) -> nat
    decreases s.len(),
{
    if s.len() == 0 {
        0
    } else {
        s[0] as nat + 256 * from_le(s.drop_first())
    }
}

/// 256 to the power `n`.
pub open spec fn le_limit(n: nat) -> nat
    decreases n,
{
    if n == 0 {
        1
    } else {
        256 * le_limit((n - 1) as nat)
    }
}

/// What little-endian writing and reading give back.
pub proof fn law_le_round_trip(x: nat, n: nat)
    requires
        x < le_limit(n),
    ensures
        le(x, n).len() == n,
        from_le(le(x, n)) == x,
    decreases n,
{
    if n > 0 {
        law_le_round_trip(x / 256, (n - 1) as nat);
        let s = le(x, n);
        assert(s.drop_first() =~= le(x / 256, (n - 1) as nat));
        assert(s[0] == x % 256);
    }
}

pub proof fn lemma_le_len(x: nat, n: nat)
    ensures
        le(x, n).len() == n,
    decreases n,
{
    if n > 0 {
        lemma_le_len(x / 256, (n - 1) as nat);
    }
}

proof fn lemma_from_le_bound(s: Seq<u8>)
    ensures
        from_le(s) < le_limit(s.len()),
    decreases s.len(),
{
    if s.len() > 0 {
        lemma_from_le_bound(s.drop_first());
    }
}

pub proof fn lemma_limits()
    ensures
        le_limit(4) == 0x1_0000_0000,
        le_limit(8) == 0x1_0000_0000_0000_0000,
{
    reveal_with_fuel(le_limit, 9);
}

/// The little-endian number in the `n` bytes from `off` on.
pub open spec fn number_at(b: Seq<u8>, off: int, n: int) -> nat {
    from_le(b.subrange(off, off + n))
}

fn push_le(out: &mut Vec<u8>, x: u64, n: usize)
    ensures
        final(out)@ == old(out)@ + le(x as nat, n as nat),
    decreases n,
{
    let ghost before = out@;
    if n > 0 {
        out.push((x % 256) as u8);
        push_le(out, x / 256, n - 1);
    }
    assert(out@ =~= before + le(x as nat, n as nat));
}

pub fn push_u32(out: &mut Vec<u8>, x: u32)
    ensures
        final(out)@ == old(out)@ + le(x as nat, 4),
{
    push_le(out, x as u64, 4)
}

pub fn push_u64(out: &mut Vec<u8>, x: u64)
    ensures
        final(out)@ == old(out)@ + le(x as nat, 8),
{
    push_le(out, x, 8)
}

fn read_le(buf: &[u8], off: usize, n: usize) -> (r: u64)
    requires
        off + n <= buf@.len(),
        n <= 8,
    ensures
        r == number_at(buf@, off as int, n as int),
    decreases n,
{
    let ghost s = buf@.subrange(off as int, off + n);
    if n == 0 {
        return 0;
    }
    assert(off < buf.len());
    assert(s.drop_first() =~= buf@.subrange(off + 1, off + 1 + (n - 1)));
    let rest: u64 = read_le(buf, off + 1, n - 1);
    proof {
        lemma_from_le_bound(s);
        lemma_from_le_bound(s.drop_first());
        reveal_with_fuel(le_limit, 9);
    }
    buf[off] as u64 + 256 * rest
}

pub fn u32_at(buf: &[u8], off: usize) -> (r: u32)
    requires
        off + 4 <= buf@.len(),
    ensures
        r == number_at(buf@, off as int, 4),
{
    proof {
        lemma_from_le_bound(buf@.subrange(off as int, off + 4));
        lemma_limits();
    }
    read_le(buf, off, 4) as u32
}

pub fn u64_at(buf: &[u8], off: usize) -> (r: u64)
    requires
        off + 8 <= buf@.len(),
    ensures
        r == number_at(buf@, off as int, 8),
{
    read_le(buf, off, 8)
}

/// Byte strings laid end to end.
pub open spec fn flat(parts: Seq<Seq<u8>>) -> Seq<u8>
    decreases parts.len(),
{
    if parts.len() == 0 {
        Seq::empty()
    } else {
        flat(parts.drop_last()) + parts.last()
    }
}

/// Where part `i` stands.
pub proof fn lemma_flat_at(parts: Seq<Seq<u8>>, i: int)
    requires
        0 <= i < parts.len(),
    ensures
        flat(parts.take(i)).len() + parts[i].len() <= flat(parts).len(),
        flat(parts).subrange(
            flat(parts.take(i)).len() as int,
            (flat(parts.take(i)).len() + parts[i].len()) as int,
        ) == parts[i],
    decreases parts.len(),
{
    let whole = flat(parts);
    let front = parts.drop_last();
    if i == parts.len() - 1 {
        assert(parts.take(i) =~= front);
        assert(whole.subrange(flat(front).len() as int, whole.len() as int) =~= parts.last());
    } else {
        lemma_flat_at(front, i);
        assert(front.take(i) =~= parts.take(i));
        let off = flat(parts.take(i)).len() as int;
        assert(whole.subrange(off, off + parts[i].len()) =~= flat(front).subrange(
            off,
            off + parts[i].len(),
        ));
    }
}

/// Parts of equal length stand at the multiples of it.
pub proof fn lemma_flat_uniform(parts: Seq<Seq<u8>>, n: nat)
    requires
        forall|i: int| 0 <= i < parts.len() ==> (#[trigger] parts[i]).len() == n,
    ensures
        flat(parts).len() == n * parts.len(),
    decreases parts.len(),
{
    if parts.len() > 0 {
        lemma_flat_uniform(parts.drop_last(), n);
        assert(n * (parts.len() - 1) + n == n * parts.len()) by (nonlinear_arith);
    } else {
        assert(n * 0 == 0);
    }
}

pub proof fn lemma_flat_uniform_at(parts: Seq<Seq<u8>>, n: nat, i: int)
    requires
        forall|j: int| 0 <= j < parts.len() ==> (#[trigger] parts[j]).len() == n,
        0 <= i < parts.len(),
    ensures
        n * i + n <= flat(parts).len(),
        flat(parts).subrange(n * i, n * i + n) == parts[i],
{
    lemma_flat_at(parts, i);
    assert forall|j: int| 0 <= j < parts.take(i).len() implies (#[trigger] parts.take(i)[j]).len()
        == n by {
        assert(parts.take(i)[j] == parts[j]);
    }
    lemma_flat_uniform(parts.take(i), n);
}

pub proof fn lemma_flat_push(parts: Seq<Seq<u8>>, i: int)
    requires
        0 <= i < parts.len(),
    ensures
        flat(parts.take(i + 1)) == flat(parts.take(i)) + parts[i],
        flat(parts.take(i)).len() <= flat(parts).len(),
    decreases parts.len() - i,
{
    assert(parts.take(i + 1).drop_last() =~= parts.take(i));
    if i + 1 < parts.len() {
        lemma_flat_push(parts, i + 1);
    } else {
        assert(parts.take(i + 1) =~= parts);
    }
}

/// A part of a part.
pub proof fn lemma_nested(b: Seq<u8>, off: int, s: Seq<u8>, i: int, m: int)
    requires
        0 <= off,
        off + s.len() <= b.len(),
        b.subrange(off, off + s.len()) == s,
        0 <= i,
        0 <= m,
        i + m <= s.len(),
    ensures
        b.subrange(off + i, off + i + m) == s.subrange(i, i + m),
{
    let x = b.subrange(off + i, off + i + m);
    let y = s.subrange(i, i + m);
    assert forall|k: int| 0 <= k < m implies x[k] == y[k] by {
        assert(b.subrange(off, off + s.len())[i + k] == b[off + i + k]);
    }
    assert(x =~= y);
}

/// Appends bytes.
pub fn push_bytes(out: &mut Vec<u8>, bytes: &[u8])
    ensures
        final(out)@ == old(out)@ + bytes@,
{
    let ghost before = out@;
    for i in 0..bytes.len()
        invariant
            out@ == before + bytes@.take(i as int),
    {
        out.push(bytes[i]);
        assert(bytes@.take(i as int).push(bytes@[i as int]) =~= bytes@.take(i as int + 1));
    }
    assert(bytes@.take(bytes@.len() as int) =~= bytes@);
}

} // verus!
