//! Finite sets of byte strings, kept in ascending order.

use crate::order::{lemma_rank_chain, lemma_rank_flip, lemma_rank_same, rank, rank_of, Rank};
use vstd::prelude::*;

verus! {

/// Every string ranks above those before it.
pub open spec fn in_order(l: Seq<Seq<u8>>) -> bool {
    forall|i: int, j: int|
        0 <= i < j < l.len() ==> #[trigger] rank(l[i], l[j]) == Rank::Below
}

/// The ascending list `l` with `s` put in its place, unless it is there.
pub open spec fn placed(l: Seq<Seq<u8>>, s: Seq<u8>) -> Seq<Seq<u8>>
    decreases l.len(),
{
    if l.len() == 0 {
        seq![s]
    } else {
        match rank(s, l[0]) {
            Rank::Same => l,
            Rank::Below => seq![s] + l,
            Rank::Above => seq![l[0]] + placed(l.drop_first(), s),
        }
    }
}

/// The ascending list `l` with each of `xs` put in its place.
pub open spec fn with_all(l: Seq<Seq<u8>>, xs: Seq<Seq<u8>>) -> Seq<Seq<u8>>
    decreases xs.len(),
{
    if xs.len() == 0 {
        l
    } else {
        placed(with_all(l, xs.drop_last()), xs.last())
    }
}

pub proof fn lemma_placed_contains(l: Seq<Seq<u8>>, s: Seq<u8>, t: Seq<u8>)
    ensures
        placed(l, s).contains(t) <==> (l.contains(t) || t == s),
    decreases l.len(),
{
    if l.len() == 0 {
        assert(seq![s].contains(t) <==> t == s) by {
            assert(seq![s][0] == s);
        }
    } else {
        let rest = l.drop_first();
        lemma_placed_contains(rest, s, t);
        lemma_rank_same(s, l[0]);
        assert(l =~= seq![l[0]] + rest);
        match rank(s, l[0]) {
            Rank::Same => {
                assert(l[0] == s);
            },
            Rank::Below => {
                lemma_contains_front(s, l, t);
            },
            Rank::Above => {
                lemma_contains_front(l[0], placed(rest, s), t);
                lemma_contains_front(l[0], rest, t);
            },
        }
    }
}

proof fn lemma_contains_front(h: Seq<u8>, l: Seq<Seq<u8>>, t: Seq<u8>)
    ensures
        (seq![h] + l).contains(t) <==> (t == h || l.contains(t)),
{
    let m = seq![h] + l;
    if t == h {
        assert(m[0] == t);
    }
    if l.contains(t) {
        let i = choose|i: int| 0 <= i < l.len() && l[i] == t;
        assert(m[i + 1] == t);
    }
    if m.contains(t) {
        let i = choose|i: int| 0 <= i < m.len() && m[i] == t;
        if i > 0 {
            assert(l[i - 1] == t);
        }
    }
}

pub proof fn lemma_with_all_contains(l: Seq<Seq<u8>>, xs: Seq<Seq<u8>>, t: Seq<u8>)
    ensures
        with_all(l, xs).contains(t) <==> l.contains(t) || xs.contains(t),
    decreases xs.len(),
{
    if xs.len() > 0 {
        lemma_with_all_contains(l, xs.drop_last(), t);
        lemma_placed_contains(with_all(l, xs.drop_last()), xs.last(), t);
        if xs.contains(t) {
            let i = choose|i: int| 0 <= i < xs.len() && xs[i] == t;
            if i < xs.len() - 1 {
                assert(xs.drop_last()[i] == t);
            }
        }
        if xs.drop_last().contains(t) {
            let i = choose|i: int| 0 <= i < xs.len() - 1 && xs.drop_last()[i] == t;
            assert(xs[i] == t);
        }
        assert(xs[xs.len() - 1] == xs.last());
    }
}

proof fn lemma_placed_in_order(l: Seq<Seq<u8>>, s: Seq<u8>)
    requires
        in_order(l),
    ensures
        in_order(placed(l, s)),
    decreases l.len(),
{
    if l.len() > 0 {
        let rest = l.drop_first();
        assert(in_order(rest)) by {
            assert forall|i: int, j: int| 0 <= i < j < rest.len() implies #[trigger] rank(
                rest[i],
                rest[j],
            ) == Rank::Below by {
                assert(rank(l[i + 1], l[j + 1]) == Rank::Below);
            }
        }
        let m = placed(l, s);
        match rank(s, l[0]) {
            Rank::Same => {},
            Rank::Below => {
                assert forall|i: int, j: int| 0 <= i < j < m.len() implies #[trigger] rank(
                    m[i],
                    m[j],
                ) == Rank::Below by {
                    if i > 0 {
                        assert(rank(l[i - 1], l[j - 1]) == Rank::Below);
                    } else if j > 1 {
                        assert(rank(l[0], l[j - 1]) == Rank::Below);
                        lemma_rank_chain(s, l[0], l[j - 1]);
                    }
                }
            },
            Rank::Above => {
                lemma_placed_in_order(rest, s);
                let p = placed(rest, s);
                assert forall|i: int, j: int| 0 <= i < j < m.len() implies #[trigger] rank(
                    m[i],
                    m[j],
                ) == Rank::Below by {
                    if i > 0 {
                        assert(rank(p[i - 1], p[j - 1]) == Rank::Below);
                    } else {
                        let t = p[j - 1];
                        assert(p.contains(t));
                        lemma_placed_contains(rest, s, t);
                        lemma_rank_flip(l[0], s);
                        if rest.contains(t) {
                            let k = choose|k: int| 0 <= k < rest.len() && rest[k] == t;
                            assert(rank(l[0], l[k + 1]) == Rank::Below);
                        }
                    }
                }
            },
        }
    }
}

/// A set lists each of its strings once, in ascending order.
pub proof fn law_set_in_order(l: Seq<Seq<u8>>, xs: Seq<Seq<u8>>)
    requires
        in_order(l),
    ensures
        in_order(with_all(l, xs)),
        with_all(l, xs).no_duplicates(),
        forall|t: Seq<u8>| #[trigger]
            with_all(l, xs).contains(t) <==> l.contains(t) || xs.contains(t),
    decreases xs.len(),
{
    let m = with_all(l, xs);
    if xs.len() > 0 {
        law_set_in_order(l, xs.drop_last());
        lemma_placed_in_order(with_all(l, xs.drop_last()), xs.last());
    }
    assert forall|t: Seq<u8>| #[trigger]
        with_all(l, xs).contains(t) <==> l.contains(t) || xs.contains(t) by {
        lemma_with_all_contains(l, xs, t);
    }
    assert forall|i: int, j: int| 0 <= i < m.len() && 0 <= j < m.len() && i != j implies m[i]
        != m[j] by {
        if i < j {
            assert(rank(m[i], m[j]) == Rank::Below);
            lemma_rank_same(m[i], m[j]);
        } else {
            assert(rank(m[j], m[i]) == Rank::Below);
            lemma_rank_same(m[j], m[i]);
        }
    }
}

/// The views of byte strings.
pub open spec fn texts(items: Seq<Vec<u8>>) -> Seq<Seq<u8>> {
    Seq::new(items.len(), |i: int| items[i]@)
}

/// A set of byte strings.
pub struct StrSet {
    pub items: Vec<Vec<u8>>,
}

impl View for StrSet {
    type V = Seq<Seq<u8>>;

    open spec fn view(&self) -> Seq<Seq<u8>> {
        texts(self.items@)
    }
}

pub fn copy_bytes(s: &[u8]) -> (r: Vec<u8>)
    ensures
        r@ == s@,
{
    let mut r: Vec<u8> = Vec::new();
    for i in 0..s.len()
        invariant
            r@ == s@.take(i as int),
    {
        r.push(s[i]);
        assert(s@.take(i as int).push(s@[i as int]) =~= s@.take(i as int + 1));
    }
    assert(s@.take(s@.len() as int) =~= s@);
    r
}

impl StrSet {
    pub fn new() -> (r: StrSet)
        ensures
            r@ == Seq::<Seq<u8>>::empty(),
    {
        let r = StrSet { items: Vec::new() };
        assert(r@ =~= Seq::<Seq<u8>>::empty());
        r
    }

    pub fn insert(&mut self, s: Vec<u8>)
        ensures
            final(self)@ == placed(old(self)@, s@),
    {
        let ghost l = self@;
        let ghost items = self.items@;
        let n: usize = self.items.len();
        let mut i: usize = 0;
        proof {
            assert(l.skip(0) =~= l);
            assert(l.take(0) + placed(l, s@) =~= placed(l, s@));
        }
        while i < n
            invariant
                i <= n,
                n == items.len(),
                self.items@ == items,
                l == texts(items),
                l == old(self)@,
                placed(l, s@) == l.take(i as int) + placed(l.skip(i as int), s@),
            decreases n - i,
        {
            let ghost rest = l.skip(i as int);
            proof {
                assert(l =~= l.take(i as int) + rest);
                assert(rest[0] == items[i as int]@);
            }
            match rank_of(&s, &self.items[i]) {
                Rank::Same => {
                    return;
                },
                Rank::Below => {
                    self.items.insert(i, s);
                    assert(self@ =~= l.take(i as int) + (seq![s@] + rest));
                    return;
                },
                Rank::Above => {
                    assert(rest.drop_first() =~= l.skip(i as int + 1));
                    assert(l.take(i as int) + (seq![rest[0]] + placed(rest.drop_first(), s@))
                        =~= l.take(i as int + 1) + placed(l.skip(i as int + 1), s@));
                },
            }
            i += 1;
        }
        assert(l.skip(n as int) =~= Seq::<Seq<u8>>::empty());
        assert(l.take(n as int) =~= l);
        let ghost added = s@;
        self.items.push(s);
        assert(self@ =~= l + seq![added]);
    }

    pub fn copy(&self) -> (r: StrSet)
        ensures
            r@ == self@,
    {
        let mut items: Vec<Vec<u8>> = Vec::new();
        for i in 0..self.items.len()
            invariant
                items@.len() == i,
                forall|k: int| 0 <= k < i ==> #[trigger] items@[k]@ == self.items@[k]@,
        {
            items.push(copy_bytes(&self.items[i]));
        }
        let r = StrSet { items };
        assert(r@ =~= self@);
        r
    }
}

} // verus!
