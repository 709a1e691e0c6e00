//! A reusable set of trigrams: a bitmap over all 2^24 of them.

use vstd::prelude::*;

verus! {

/// The number of trigrams.
pub const TRIGRAMS: u32 = 0x100_0000;

/// Whether bit `b` of a word is set.
pub open spec fn has_bit(w: u64, b: u64) -> bool {
    w & (1u64 << b) != 0
}

/// Whether a bitmap marks trigram `t`.
pub open spec fn marked(words: Seq<u64>, t: u32) -> bool {
    has_bit(words[t as int / 64], (t % 64) as u64)
}

/// A set of trigrams that is filled and emptied many times.
pub struct TriSet {
    /// One bit for each trigram.
    words: Vec<u64>,
    /// The members, so that emptying costs no more than filling.
    members: Vec<u32>,
}

impl TriSet {
    /// Whether the bitmap and the list of members agree.
    pub closed spec fn wf(&self) -> bool {
        &&& self.words@.len() == 0x4_0000
        &&& forall|t: u32|
            t < TRIGRAMS ==> (#[trigger] marked(self.words@, t) <==> self.members@.contains(t))
        &&& forall|i: int| 0 <= i < self.members@.len() ==> #[trigger] self.members@[i] < TRIGRAMS
    }

    /// The members.
    pub closed spec fn set(&self) -> Set<u32> {
        self.members@.to_set()
    }

    pub fn new() -> (r: TriSet)
        ensures
            r.wf(),
            r.set() == Set::<u32>::empty(),
    {
        let mut words: Vec<u64> = Vec::new();
        for i in 0..0x4_0000
            invariant
                words@.len() == i,
                forall|k: int| 0 <= k < i ==> words@[k] == 0,
        {
            words.push(0);
        }
        let r = TriSet { words, members: Vec::new() };
        assert forall|t: u32| t < TRIGRAMS implies (#[trigger] marked(r.words@, t)
            <==> r.members@.contains(t)) by {
            let b = (t % 64) as u64;
            assert(r.words@[t as int / 64] == 0);
            assert(0u64 & (1u64 << b) == 0) by (bit_vector);
        }
        assert(r.set() =~= Set::<u32>::empty());
        r
    }

    /// Adds a trigram; true when it was not there.
    pub fn insert(&mut self, t: u32) -> (added: bool)
        requires
            old(self).wf(),
            t < TRIGRAMS,
        ensures
            final(self).wf(),
            added == !old(self).set().contains(t),
            final(self).set() == old(self).set().insert(t),
    {
        let k: usize = (t / 64) as usize;
        let b: u64 = (t % 64) as u64;
        let w: u64 = self.words[k];
        let ghost before = *self;
        if w & (1u64 << b) != 0 {
            assert(marked(self.words@, t));
            assert(self.set() =~= before.set().insert(t));
            return false;
        }
        assert(!marked(before.words@, t));
        self.words.set(k, w | (1u64 << b));
        self.members.push(t);
        proof {
            assert forall|u: u32| u < TRIGRAMS implies (#[trigger] marked(self.words@, u)
                <==> self.members@.contains(u)) by {
                let c = (u % 64) as u64;
                lemma_push_member(before.members@, t, u);
                assert(marked(before.words@, u) <==> before.members@.contains(u));
                if u as int / 64 == t as int / 64 {
                    assert(c != b ==> ((w | (1u64 << b)) & (1u64 << c) != 0) == (w & (1u64 << c)
                        != 0)) by (bit_vector)
                        requires
                            b < 64,
                            c < 64,
                    ;
                    assert((w | (1u64 << b)) & (1u64 << b) != 0) by (bit_vector)
                        requires
                            b < 64,
                    ;
                }
            }
            assert(self.set() =~= before.set().insert(t)) by {
                assert forall|u: u32| self.set().contains(u) <==> before.set().insert(t).contains(
                    u,
                ) by {
                    lemma_push_member(before.members@, t, u);
                }
            }
        }
        true
    }

    /// Empties the set.
    pub fn clear(&mut self)
        requires
            old(self).wf(),
        ensures
            final(self).wf(),
            final(self).set() == Set::<u32>::empty(),
    {
        let n: usize = self.members.len();
        let ghost all = self.members@;
        assert(all.skip(0) =~= all);
        for i in 0..n
            invariant
                n == all.len(),
                self.members@ == all,
                self.words@.len() == 0x4_0000,
                forall|k: int| 0 <= k < all.len() ==> #[trigger] all[k] < TRIGRAMS,
                forall|t: u32|
                    t < TRIGRAMS && #[trigger] marked(self.words@, t) ==> all.skip(
                        i as int,
                    ).contains(t),
        {
            let t: u32 = self.members[i];
            assert(t == all[i as int] && t < TRIGRAMS);
            let k: usize = (t / 64) as usize;
            let ghost before = self.words@;
            self.words.set(k, 0);
            proof {
                assert forall|u: u32|
                    u < TRIGRAMS && #[trigger] marked(self.words@, u) implies all.skip(i as int + 1).contains(u) by {
                    let c = (u % 64) as u64;
                    if u as int / 64 == k {
                        assert(0u64 & (1u64 << c) == 0) by (bit_vector);
                    } else {
                        assert(marked(before, u));
                        let rest = all.skip(i as int);
                        let j = choose|j: int| 0 <= j < rest.len() && rest[j] == u;
                        assert(j != 0);
                        assert(all.skip(i as int + 1)[j - 1] == u);
                    }
                }
            }
        }
        self.members.clear();
        proof {
            assert forall|t: u32| t < TRIGRAMS implies (#[trigger] marked(self.words@, t)
                <==> self.members@.contains(t)) by {
                assert(all.skip(n as int) =~= Seq::<u32>::empty());
            }
            assert(self.set() =~= Set::<u32>::empty());
        }
    }
}

proof fn lemma_push_member(s: Seq<u32>, x: u32, y: u32)
    ensures
        s.push(x).contains(y) <==> s.contains(y) || x == y,
{
    assert(s.push(x)[s.len() as int] == x);
    if s.contains(y) {
        let i = choose|i: int| 0 <= i < s.len() && s[i] == y;
        assert(s.push(x)[i] == y);
    }
    if s.push(x).contains(y) {
        let i = choose|i: int| 0 <= i < s.len() + 1 && s.push(x)[i] == y;
        if i < s.len() {
            assert(s[i] == y);
        }
    }
}

} // verus!
