//! The order of byte strings, and sorting by it.

use vstd::prelude::*;

verus! {

/// How two strings compare.
#[derive(Clone, Copy, PartialEq, Eq, Structural)]
pub enum Rank {
    Below,
    Same,
    Above,
}

/// The lexicographic order of byte strings.
pub open spec fn rank(a: Seq<u8>, b: Seq<u8>) -> Rank
    decreases a.len(),
{
    if a.len() == 0 {
        if b.len() == 0 {
            Rank::Same
        } else {
            Rank::Below
        }
    } else if b.len() == 0 {
        Rank::Above
    } else if a[0] < b[0] {
        Rank::Below
    } else if b[0] < a[0] {
        Rank::Above
    } else {
        rank(a.drop_first(), b.drop_first())
    }
}

pub proof fn lemma_rank_same(a: Seq<u8>, b: Seq<u8>)
    ensures
        rank(a, b) == Rank::Same <==> a == b,
    decreases a.len(),
{
    if a.len() > 0 && b.len() > 0 {
        lemma_rank_same(a.drop_first(), b.drop_first());
        if a[0] == b[0] && a.drop_first() == b.drop_first() {
            assert(a =~= seq![a[0]] + a.drop_first());
            assert(b =~= seq![b[0]] + b.drop_first());
        }
    } else if a.len() == 0 && b.len() == 0 {
        assert(a =~= b);
    }
}

pub proof fn lemma_rank_flip(a: Seq<u8>, b: Seq<u8>)
    ensures
        rank(a, b) == Rank::Below <==> rank(b, a) == Rank::Above,
    decreases a.len(),
{
    if a.len() > 0 && b.len() > 0 {
        lemma_rank_flip(a.drop_first(), b.drop_first());
    }
}

pub proof fn lemma_rank_chain(a: Seq<u8>, b: Seq<u8>, c: Seq<u8>)
    requires
        rank(a, b) == Rank::Below,
        rank(b, c) == Rank::Below,
    ensures
        rank(a, c) == Rank::Below,
    decreases a.len(),
{
    if a.len() > 0 && b.len() > 0 && c.len() > 0 && a[0] == b[0] && b[0] == c[0] {
        lemma_rank_chain(a.drop_first(), b.drop_first(), c.drop_first());
    }
}

/// How two strings compare.
pub fn rank_of(a: &[u8], b: &[u8]) -> (r: Rank)
    ensures
        r == rank(a@, b@),
{
    let mut i: usize = 0;
    proof {
        assert(a@.skip(0) =~= a@);
        assert(b@.skip(0) =~= b@);
    }
    loop
        invariant
            i <= a@.len(),
            i <= b@.len(),
            rank(a@, b@) == rank(a@.skip(i as int), b@.skip(i as int)),
        decreases a@.len() - i,
    {
        if i == a.len() {
            return if i == b.len() {
                Rank::Same
            } else {
                Rank::Below
            };
        }
        if i == b.len() {
            return Rank::Above;
        }
        if a[i] < b[i] {
            return Rank::Below;
        }
        if b[i] < a[i] {
            return Rank::Above;
        }
        assert(a@.skip(i as int).drop_first() =~= a@.skip(i as int + 1));
        assert(b@.skip(i as int).drop_first() =~= b@.skip(i as int + 1));
        i += 1;
    }
}

/// What is sorted by a byte string.
pub trait Keyed: Sized {
    spec fn key(&self) -> Seq<u8>;

    fn key_bytes(&self) -> (r: &[u8])
        ensures
            r@ == self.key(),
    ;
}

/// No element ranks below one before it.
pub open spec fn by_key<T: Keyed>(s: Seq<T>) -> bool {
    forall|i: int, j: int|
        0 <= i < j < s.len() ==> rank((#[trigger] s[j]).key(), (#[trigger] s[i]).key())
            != Rank::Below
}

pub proof fn lemma_not_below_chain(a: Seq<u8>, b: Seq<u8>, c: Seq<u8>)
    requires
        rank(b, a) != Rank::Below,
        rank(c, b) != Rank::Below,
    ensures
        rank(c, a) != Rank::Below,
{
    lemma_rank_same(b, a);
    lemma_rank_same(c, b);
    lemma_rank_flip(a, b);
    lemma_rank_flip(b, a);
    lemma_rank_flip(b, c);
    lemma_rank_flip(c, b);
    if b != a && c != b {
        lemma_rank_chain(a, b, c);
        lemma_rank_flip(a, c);
    }
}

/// Every element of `a` is not above the one at the front of `b`.
spec fn all_before<T: Keyed>(a: Seq<T>, x: T) -> bool {
    forall|i: int| 0 <= i < a.len() ==> rank(x.key(), (#[trigger] a[i]).key()) != Rank::Below
}

/// Merges two lists, each in order and given last element first.
fn merge<T: Keyed>(a: Vec<T>, b: Vec<T>) -> (out: Vec<T>)
    requires
        by_key(a@.reverse()),
        by_key(b@.reverse()),
    ensures
        by_key(out@),
        out@.to_multiset() == a@.to_multiset().add(b@.to_multiset()),
{
    let mut a = a;
    let mut b = b;
    let ghost whole = a@.to_multiset().add(b@.to_multiset());
    let mut out: Vec<T> = Vec::new();
    proof {
        out@.to_multiset_ensures();
        assert(out@.to_multiset().add(a@.to_multiset()).add(b@.to_multiset()) =~= whole);
    }
    while a.len() > 0 || b.len() > 0
        invariant
            by_key(a@.reverse()),
            by_key(b@.reverse()),
            by_key(out@),
            a@.len() > 0 ==> all_before(out@, a@.last()),
            b@.len() > 0 ==> all_before(out@, b@.last()),
            out@.to_multiset().add(a@.to_multiset()).add(b@.to_multiset()) == whole,
        decreases a@.len() + b@.len(),
    {
        let ghost (a0, b0, out0) = (a@, b@, out@);
        let take_a = if a.len() == 0 {
            false
        } else if b.len() == 0 {
            true
        } else {
            match rank_of(b[b.len() - 1].key_bytes(), a[a.len() - 1].key_bytes()) {
                Rank::Below => false,
                _ => true,
            }
        };
        proof {
            a0.to_multiset_ensures();
            b0.to_multiset_ensures();
            out0.to_multiset_ensures();
        }
        if take_a {
            match a.pop() {
                Some(x) => {
                    proof {
                        lemma_popped(a0);
                        lemma_pushed(out0, x);
                        if b0.len() > 0 {
                            assert(rank(b0.last().key(), x.key()) != Rank::Below);
                        }
                        lemma_pop_multiset(a0);
                    }
                    out.push(x);
                    assert(out@.to_multiset() =~= out0.to_multiset().insert(x));
                    assert(out@.to_multiset().add(a@.to_multiset()).add(b@.to_multiset())
                        =~= whole);
                },
                None => {},
            }
        } else {
            match b.pop() {
                Some(x) => {
                    proof {
                        lemma_popped(b0);
                        lemma_pushed(out0, x);
                        if a0.len() > 0 {
                            lemma_rank_flip(x.key(), a0.last().key());
                            assert(rank(a0.last().key(), x.key()) != Rank::Below);
                        }
                        lemma_pop_multiset(b0);
                    }
                    out.push(x);
                    assert(out@.to_multiset() =~= out0.to_multiset().insert(x));
                    assert(out@.to_multiset().add(a@.to_multiset()).add(b@.to_multiset())
                        =~= whole);
                },
                None => {},
            }
        }
    }
    proof {
        a@.to_multiset_ensures();
        b@.to_multiset_ensures();
        assert(a@.to_multiset() =~= vstd::multiset::Multiset::empty());
        assert(b@.to_multiset() =~= vstd::multiset::Multiset::empty());
        assert(out@.to_multiset() =~= whole);
    }
    out
}

proof fn lemma_popped<T: Keyed>(s: Seq<T>)
    requires
        s.len() > 0,
        by_key(s.reverse()),
    ensures
        by_key(s.drop_last().reverse()),
        s.len() > 1 ==> rank(s.drop_last().last().key(), s.last().key()) != Rank::Below,
{
    let r = s.reverse();
    let t = s.drop_last().reverse();
    assert forall|i: int, j: int| 0 <= i < j < t.len() implies rank(
        (#[trigger] t[j]).key(),
        (#[trigger] t[i]).key(),
    ) != Rank::Below by {
        assert(t[i] == r[i + 1] && t[j] == r[j + 1]);
    }
    if s.len() > 1 {
        assert(r[0] == s.last() && r[1] == s.drop_last().last());
    }
}

proof fn lemma_pushed<T: Keyed>(out: Seq<T>, x: T)
    requires
        by_key(out),
        all_before(out, x),
    ensures
        by_key(out.push(x)),
        forall|y: T|
            rank(y.key(), x.key()) != Rank::Below ==> #[trigger] all_before(out.push(x), y),
{
    assert forall|y: T| rank(y.key(), x.key()) != Rank::Below implies #[trigger] all_before(
        out.push(x),
        y,
    ) by {
        assert forall|i: int| 0 <= i < out.push(x).len() implies rank(
            y.key(),
            (#[trigger] out.push(x)[i]).key(),
        ) != Rank::Below by {
            if i < out.len() {
                assert(out.push(x)[i] == out[i]);
                lemma_not_below_chain(out[i].key(), x.key(), y.key());
            }
        }
    }
}

proof fn lemma_pop_multiset<T: Keyed>(s: Seq<T>)
    requires
        s.len() > 0,
    ensures
        s.to_multiset() == s.drop_last().to_multiset().insert(s.last()),
{
    s.drop_last().to_multiset_ensures();
    assert(s =~= s.drop_last().push(s.last()));
}

/// The elements, last first.
fn reversed<T: Keyed>(v: Vec<T>) -> (r: Vec<T>)
    ensures
        r@ == v@.reverse(),
{
    let ghost all = v@;
    let mut v = v;
    let mut r: Vec<T> = Vec::new();
    let n: usize = v.len();
    for k in 0..n
        invariant
            n == all.len(),
            v@ == all.take(n - k),
            r@ == all.skip(n - k).reverse(),
    {
        match v.pop() {
            Some(x) => {
                r.push(x);
                assert(r@ =~= all.skip(n - k - 1).reverse());
                assert(v@ =~= all.take(n - k - 1));
            },
            None => {},
        }
    }
    assert(all.skip(0) =~= all);
    r
}

/// Sorts by key.
pub fn sort_by_key<T: Keyed>(v: Vec<T>) -> (r: Vec<T>)
    ensures
        by_key(r@),
        r@.to_multiset() == v@.to_multiset(),
    decreases v@.len(),
{
    if v.len() < 2 {
        return v;
    }
    let ghost all = v@;
    let mut front = v;
    let half: usize = front.len() / 2;
    let back = front.split_off(half);
    proof {
        assert(all =~= all.take(half as int) + all.skip(half as int));
        vstd::seq_lib::lemma_multiset_commutative(all.take(half as int), all.skip(half as int));
        assert(front@ =~= all.take(half as int));
        assert(back@ =~= all.skip(half as int));
    }
    let a = sort_by_key(front);
    let b = sort_by_key(back);
    let ghost (sa, sb) = (a@, b@);
    let ra = reversed(a);
    let rb = reversed(b);
    proof {
        assert(ra@.reverse() =~= sa);
        assert(rb@.reverse() =~= sb);
        sa.lemma_reverse_to_multiset();
        sb.lemma_reverse_to_multiset();
    }
    merge(ra, rb)
}

/// The first place in an ordered list whose key does not rank below `key`.
pub fn lower_bound<T: Keyed>(list: &Vec<T>, key: &[u8]) -> (r: usize)
    requires
        by_key(list@),
    ensures
        r <= list@.len(),
        forall|k: int| 0 <= k < r ==> rank((#[trigger] list@[k]).key(), key@) == Rank::Below,
        forall|k: int|
            r <= k < list@.len() ==> rank((#[trigger] list@[k]).key(), key@) != Rank::Below,
{
    let (mut lo, mut hi): (usize, usize) = (0, list.len());
    while lo < hi
        invariant
            by_key(list@),
            lo <= hi <= list@.len(),
            forall|k: int| 0 <= k < lo ==> rank((#[trigger] list@[k]).key(), key@) == Rank::Below,
            forall|k: int|
                hi <= k < list@.len() ==> rank((#[trigger] list@[k]).key(), key@) != Rank::Below,
        decreases hi - lo,
    {
        let mid: usize = lo + (hi - lo) / 2;
        let ghost at = list@[mid as int].key();
        match rank_of(list[mid].key_bytes(), key) {
            Rank::Below => {
                assert forall|k: int| 0 <= k < mid + 1 implies rank(
                    (#[trigger] list@[k]).key(),
                    key@,
                ) == Rank::Below by {
                    if k < mid && rank(list@[k].key(), key@) != Rank::Below {
                        lemma_not_below_chain(key@, list@[k].key(), at);
                    }
                }
                lo = mid + 1;
            },
            _ => {
                assert forall|k: int| mid <= k < list@.len() implies rank(
                    (#[trigger] list@[k]).key(),
                    key@,
                ) != Rank::Below by {
                    if k > mid {
                        lemma_not_below_chain(key@, at, list@[k].key());
                    }
                }
                hi = mid;
            },
        }
    }
    lo
}

/// Whether `a` comes before `b`: at the first byte in which they differ it has
/// the lesser, or it is only the front of `b`.
pub open spec fn comes_before(a: Seq<u8>, b: Seq<u8>) -> bool {
    exists|k: int|
        #![trigger a.take(k)]
        0 <= k <= a.len() && k < b.len() && a.take(k) == b.take(k) && (k == a.len() || a[k] < b[k])
}

/// The order of paths is that of their bytes.
pub proof fn law_rank_is_the_order_of_bytes(a: Seq<u8>, b: Seq<u8>)
    ensures
        rank(a, b) == Rank::Below <==> comes_before(a, b),
        rank(a, b) == Rank::Above <==> comes_before(b, a),
        rank(a, b) == Rank::Same <==> a == b,
{
    lemma_rank_same(a, b);
    lemma_rank_flip(b, a);
    lemma_below_is_before(a, b);
    lemma_below_is_before(b, a);
}

proof fn lemma_below_is_before(a: Seq<u8>, b: Seq<u8>)
    ensures
        rank(a, b) == Rank::Below <==> comes_before(a, b),
    decreases a.len(),
{
    if a.len() == 0 {
        assert(a.take(0) =~= b.take(0));
    } else if b.len() > 0 {
        let (x, y) = (a.drop_first(), b.drop_first());
        lemma_below_is_before(x, y);
        if a[0] != b[0] {
            assert(a.take(0) =~= b.take(0));
            if comes_before(a, b) {
                let k = choose|k: int|
                    #![trigger a.take(k)]
                    0 <= k <= a.len() && k < b.len() && a.take(k) == b.take(k) && (k == a.len()
                        || a[k] < b[k]);
                if k > 0 {
                    assert(a.take(k)[0] == a[0] && b.take(k)[0] == b[0]);
                }
            }
        } else {
            if comes_before(a, b) {
                let k = choose|k: int|
                    #![trigger a.take(k)]
                    0 <= k <= a.len() && k < b.len() && a.take(k) == b.take(k) && (k == a.len()
                        || a[k] < b[k]);
                assert(k > 0);
                assert(x.take(k - 1) =~= a.take(k).drop_first());
                assert(y.take(k - 1) =~= b.take(k).drop_first());
                assert(comes_before(x, y));
            }
            if comes_before(x, y) {
                let k = choose|k: int|
                    #![trigger x.take(k)]
                    0 <= k <= x.len() && k < y.len() && x.take(k) == y.take(k) && (k == x.len()
                        || x[k] < y[k]);
                assert(a.take(k + 1) =~= seq![a[0]] + x.take(k));
                assert(b.take(k + 1) =~= seq![b[0]] + y.take(k));
                assert(comes_before(a, b));
            }
        }
    }
}

} // verus!
