//! Packed (trigram, file id) pairs, and sorted runs of them.

use crate::bytes::{
    flat, law_le_round_trip, le, lemma_flat_push, lemma_flat_uniform, lemma_flat_uniform_at,
    lemma_le_len, lemma_limits, number_at, push_u64, u64_at,
};
use crate::trigram::ascending;
use vstd::prelude::*;

verus! {

/// A trigram and a file id, packed.
pub open spec fn pair_of(t: u32, id: u32) -> u64 {
    (t * 0x1_0000_0000 + id) as u64
}

pub open spec fn key_of(p: u64) -> u32 {
    (p / 0x1_0000_0000) as u32
}

pub open spec fn id_of(p: u64) -> u32 {
    (p % 0x1_0000_0000) as u32
}

/// A pair holds its trigram and its id; pairs are ordered by trigram, then by
/// id.
pub proof fn law_pair_holds_both(t: u32, id: u32)
    ensures
        key_of(pair_of(t, id)) == t,
        id_of(pair_of(t, id)) == id,
        forall|p: u64| key_of(p) == t && id_of(p) == id ==> p == #[trigger] pair_of(t, id),
        forall|p: u64| key_of(p) < t ==> p < #[trigger] pair_of(t, id),
        forall|p: u64| key_of(p) == t && id_of(p) < id ==> p < #[trigger] pair_of(t, id),
{
    let x = t * 0x1_0000_0000 + id;
    assert(x / 0x1_0000_0000 == t && x % 0x1_0000_0000 == id);
    assert(x <= u64::MAX);
}

pub proof fn lemma_pair_parts(p: u64)
    ensures
        pair_of(key_of(p), id_of(p)) == p,
{
    law_pair_holds_both(key_of(p), id_of(p));
}

pub proof fn lemma_pair_order(p: u64, q: u64)
    requires
        p < q,
    ensures
        key_of(p) <= key_of(q),
        key_of(p) == key_of(q) ==> id_of(p) < id_of(q),
{
}

pub fn pack_pair(t: u32, id: u32) -> (p: u64)
    ensures
        p == pair_of(t, id),
{
    proof {
        law_pair_holds_both(t, id);
    }
    t as u64 * 0x1_0000_0000 + id as u64
}

pub fn pair_key(p: u64) -> (t: u32)
    ensures
        t == key_of(p),
{
    (p / 0x1_0000_0000) as u32
}

pub fn pair_id(p: u64) -> (id: u32)
    ensures
        id == id_of(p),
{
    (p % 0x1_0000_0000) as u32
}

/// Every pair is greater than the ones before it.
pub open spec fn rising(s: Seq<u64>) -> bool {
    forall|i: int, j: int| 0 <= i < j < s.len() ==> s[i] < s[j]
}

/// What is left of a run behind the pairs of `key` at its front.
pub open spec fn beyond(run: Seq<u64>, key: u32) -> Seq<u64>
    decreases run.len(),
{
    if run.len() > 0 && key_of(run[0]) == key {
        beyond(run.drop_first(), key)
    } else {
        run
    }
}

/// The pairs of a raw run.
pub open spec fn raw_pairs(bytes: Seq<u8>) -> Seq<u64> {
    Seq::new(bytes.len() / 8, |i: int| number_at(bytes, 8 * i, 8) as u64)
}

/// The rows of a raw run.
pub open spec fn raw_rows(pairs: Seq<u64>) -> Seq<Seq<u8>> {
    Seq::new(pairs.len(), |i: int| le(pairs[i] as nat, 8))
}

/// The bytes of a raw run.
pub open spec fn raw_bytes(pairs: Seq<u64>) -> Seq<u8> {
    flat(raw_rows(pairs))
}

/// A raw run: the pairs, little-endian.
pub fn run_bytes(pairs: &Vec<u64>) -> (r: Vec<u8>)
    ensures
        r@ == raw_bytes(pairs@),
{
    let mut r: Vec<u8> = Vec::new();
    let ghost rows = raw_rows(pairs@);
    assert(r@ =~= flat(rows.take(0)));
    for i in 0..pairs.len()
        invariant
            rows == raw_rows(pairs@),
            r@ == flat(rows.take(i as int)),
    {
        proof {
            lemma_flat_push(rows, i as int);
        }
        push_u64(&mut r, pairs[i]);
    }
    assert(rows.take(pairs@.len() as int) =~= rows);
    r
}

/// Where the pairs of a run are.
enum Pairs<'a> {
    Mem(Vec<u64>),
    Raw(&'a [u8]),
}

/// A cursor over one sorted run of pairs.
pub struct Run<'a> {
    pairs: Pairs<'a>,
    len: usize,
    pos: usize,
}

impl<'a> Run<'a> {
    spec fn all(&self) -> Seq<u64> {
        match self.pairs {
            Pairs::Mem(v) => v@,
            Pairs::Raw(b) => raw_pairs(b@),
        }
    }

    pub closed spec fn wf(&self) -> bool {
        &&& self.len == self.all().len()
        &&& self.pos <= self.len
        &&& rising(self.all())
    }

    /// The pairs still to come.
    pub closed spec fn rest(&self) -> Seq<u64> {
        self.all().skip(self.pos as int)
    }

    /// A run in memory; `None` when it is not sorted.
    pub fn memory(pairs: Vec<u64>) -> (r: Option<Run<'a>>)
        ensures
            match r {
                Some(run) => rising(pairs@) && run.wf() && run.rest() == pairs@,
                None => !rising(pairs@),
            },
    {
        let n: usize = pairs.len();
        for i in 0..n
            invariant
                n == pairs@.len(),
                forall|a: int, b: int| 0 <= a < b < i ==> pairs@[a] < pairs@[b],
        {
            if i > 0 && pairs[i - 1] >= pairs[i] {
                assert(!rising(pairs@)) by {
                    assert(pairs@[i - 1] >= pairs@[i as int]);
                }
                return None;
            }
            assert forall|a: int, b: int| 0 <= a < b < i + 1 implies pairs@[a] < pairs@[b] by {
                if b == i && a < i - 1 {
                    assert(pairs@[a] < pairs@[i - 1]);
                }
            }
        }
        let run = Run { pairs: Pairs::Mem(pairs), len: n, pos: 0 };
        assert(run.rest() =~= pairs@);
        Some(run)
    }

    /// A raw run, as it was spilled; a torn last pair is left out. `None`
    /// when it is not sorted.
    pub fn raw(bytes: &'a [u8]) -> (r: Option<Run<'a>>)
        ensures
            match r {
                Some(run) => rising(raw_pairs(bytes@)) && run.wf() && run.rest() == raw_pairs(
                    bytes@,
                ),
                None => !rising(raw_pairs(bytes@)),
            },
    {
        let n: usize = bytes.len() / 8;
        let ghost all = raw_pairs(bytes@);
        for i in 0..n
            invariant
                n == bytes@.len() / 8,
                bytes@.len() <= usize::MAX,
                all == raw_pairs(bytes@),
                forall|a: int, b: int| 0 <= a < b < i ==> all[a] < all[b],
        {
            assert(8 * i + 8 <= bytes@.len());
            if i > 0 && u64_at(bytes, 8 * (i - 1)) >= u64_at(bytes, 8 * i) {
                assert(!rising(all)) by {
                    assert(all[i - 1] >= all[i as int]);
                }
                return None;
            }
            assert(i > 0 ==> all[i - 1] < all[i as int]);
            assert forall|a: int, b: int| 0 <= a < b < i + 1 implies all[a] < all[b] by {
                if b == i && a < i - 1 {
                    assert(all[a] < all[i - 1]);
                }
            }
        }
        let run = Run { pairs: Pairs::Raw(bytes), len: n, pos: 0 };
        assert(run.rest() =~= all);
        Some(run)
    }

    /// The next pair.
    pub fn peek(&self) -> (r: Option<u64>)
        requires
            self.wf(),
        ensures
            match r {
                Some(p) => self.rest().len() > 0 && self.rest()[0] == p,
                None => self.rest().len() == 0,
            },
    {
        if self.pos >= self.len {
            return None;
        }
        match &self.pairs {
            Pairs::Mem(v) => Some(v[self.pos]),
            Pairs::Raw(b) => {
                assert(b.len() == b@.len());
                assert(8 * self.pos + 8 <= b@.len());
                Some(u64_at(b, 8 * self.pos))
            },
        }
    }

    /// Takes the ids of `key` from the front.
    pub fn take_key(&mut self, key: u32) -> (ids: Vec<u32>)
        requires
            old(self).wf(),
            old(self).rest().len() > 0 ==> key <= key_of(old(self).rest()[0]),
        ensures
            final(self).wf(),
            final(self).rest() == beyond(old(self).rest(), key),
            ascending(ids@),
            forall|id: u32| #[trigger]
                ids@.contains(id) <==> old(self).rest().contains(pair_of(key, id)),
            forall|i: int|
                0 <= i < final(self).rest().len() ==> key < key_of(#[trigger] final(self).rest()[i]),
    {
        let ghost start = self.rest();
        let ghost mut taken: int = 0;
        let mut ids: Vec<u32> = Vec::new();
        assert(start.skip(0) =~= start);
        loop
            invariant_except_break
                self.wf(),
                rising(start),
                start.len() > 0 ==> key <= key_of(start[0]),
                0 <= taken <= start.len(),
                self.rest() == start.skip(taken),
                beyond(start, key) == beyond(start.skip(taken), key),
                ids@.len() == taken,
                forall|i: int| 0 <= i < taken ==> #[trigger] start[i] == pair_of(key, ids@[i]),
                ascending(ids@),
            ensures
                self.wf(),
                rising(start),
                0 <= taken <= start.len(),
                self.rest() == start.skip(taken),
                self.rest() == beyond(start, key),
                ids@.len() == taken,
                forall|i: int| 0 <= i < taken ==> #[trigger] start[i] == pair_of(key, ids@[i]),
                ascending(ids@),
                taken < start.len() ==> key < key_of(start[taken]),
            decreases start.len() - taken,
        {
            let ghost here = start.skip(taken);
            match self.peek() {
                None => {
                    break;
                },
                Some(p) => {
                    assert(p == start[taken]);
                    proof {
                        if taken > 0 {
                            lemma_pair_order(start[0], start[taken]);
                        }
                    }
                    if pair_key(p) != key {
                        break;
                    }
                    proof {
                        lemma_pair_parts(p);
                        assert(here.drop_first() =~= start.skip(taken + 1));
                        assert forall|i: int| 0 <= i < taken implies #[trigger] ids@[i] < id_of(
                            p,
                        ) by {
                            assert(start[i] == pair_of(key, ids@[i]));
                            law_pair_holds_both(key, ids@[i]);
                            lemma_pair_order(start[i], p);
                        }
                    }
                    ids.push(pair_id(p));
                    self.pos = self.pos + 1;
                    assert(self.rest() =~= start.skip(taken + 1));
                    proof {
                        taken = taken + 1;
                    }
                },
            }
        }
        proof {
            assert forall|i: int| 0 <= i < self.rest().len() implies key < key_of(
                #[trigger] self.rest()[i],
            ) by {
                assert(self.rest()[i] == start[taken + i]);
                if i > 0 {
                    lemma_pair_order(start[taken], start[taken + i]);
                }
            }
            assert forall|id: u32| #[trigger] ids@.contains(id) <==> start.contains(
                pair_of(key, id),
            ) by {
                law_pair_holds_both(key, id);
                if ids@.contains(id) {
                    let i = choose|i: int| 0 <= i < ids@.len() && ids@[i] == id;
                    assert(start[i] == pair_of(key, id));
                }
                if start.contains(pair_of(key, id)) {
                    let i = choose|i: int| 0 <= i < start.len() && start[i] == pair_of(key, id);
                    if i >= taken {
                        assert(self.rest()[i - taken] == start[i]);
                    } else {
                        law_pair_holds_both(key, ids@[i]);
                        assert(ids@[i] == id);
                    }
                }
            }
        }
        ids
    }
}

/// A spilled run reads back as it was.
pub proof fn law_run_reads_back(pairs: Seq<u64>)
    ensures
        raw_pairs(raw_bytes(pairs)) == pairs,
{
    let rows = raw_rows(pairs);
    let b = raw_bytes(pairs);
    assert forall|i: int| 0 <= i < rows.len() implies #[trigger] rows[i].len() == 8 by {
        lemma_le_len(pairs[i] as nat, 8);
    }
    lemma_flat_uniform(rows, 8);
    assert(b.len() / 8 == pairs.len());
    assert forall|i: int| 0 <= i < pairs.len() implies raw_pairs(b)[i] == pairs[i] by {
        lemma_flat_uniform_at(rows, 8, i);
        lemma_limits();
        law_le_round_trip(pairs[i] as nat, 8);
    }
    assert(raw_pairs(b) =~= pairs);
}

} // verus!
