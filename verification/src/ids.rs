//! Ascending lists of file ids.

use crate::trigram::ascending;
use vstd::prelude::*;

verus! {

pub proof fn lemma_push_contains<A>(s: Seq<A>, x: A, y: A)
    ensures
        s.push(x).contains(y) <==> s.contains(y) || x == y,
{
    assert(s.push(x)[s.len() as int] == x);
    if s.contains(y) {
        let i = choose|i: int| 0 <= i < s.len() && s[i] == y;
        assert(s.push(x)[i] == y);
    }
    if s.push(x).contains(y) {
        let i = choose|i: int| 0 <= i < s.len() + 1 && s.push(x)[i] == y;
        if i < s.len() {
            assert(s[i] == y);
        }
    }
}

/// Ascending lists with the same members are the same list.
pub proof fn lemma_ascending_same(a: Seq<u32>, b: Seq<u32>)
    requires
        ascending(a),
        ascending(b),
        forall|x: u32| a.contains(x) <==> b.contains(x),
    ensures
        a == b,
    decreases a.len(),
{
    if a.len() == 0 {
        if b.len() > 0 {
            assert(b.contains(b[0]));
        }
        assert(a =~= b);
    } else {
        assert(a.contains(a.last()));
        assert(b.contains(a.last()));
        let j = choose|j: int| 0 <= j < b.len() && b[j] == a.last();
        assert(b.contains(b.last()));
        assert(a.contains(b.last()));
        let i = choose|i: int| 0 <= i < a.len() && a[i] == b.last();
        assert(a.last() == b.last());
        let (a1, b1) = (a.drop_last(), b.drop_last());
        assert forall|x: u32| a1.contains(x) <==> b1.contains(x) by {
            if a1.contains(x) {
                let k = choose|k: int| 0 <= k < a1.len() && a1[k] == x;
                assert(a[k] == x && a[k] < a.last());
                assert(a.contains(x));
                let m = choose|m: int| 0 <= m < b.len() && b[m] == x;
                assert(b1[m] == x);
            }
            if b1.contains(x) {
                let k = choose|k: int| 0 <= k < b1.len() && b1[k] == x;
                assert(b[k] == x && b[k] < b.last());
                assert(b.contains(x));
                let m = choose|m: int| 0 <= m < a.len() && a[m] == x;
                assert(a1[m] == x);
            }
        }
        lemma_ascending_same(a1, b1);
        assert(a =~= a1.push(a.last()));
        assert(b =~= b1.push(b.last()));
    }
}

/// The ascending list of a set's values.
pub open spec fn ascending_of(s: Set<u32>) -> Seq<u32> {
    choose|q: Seq<u32>| #[trigger] ascending(q) && q.to_set() == s
}

/// An ascending list is that of its values.
pub proof fn lemma_ascending_of(q: Seq<u32>)
    requires
        ascending(q),
    ensures
        ascending_of(q.to_set()) == q,
{
    let a = ascending_of(q.to_set());
    assert(ascending(a) && a.to_set() == q.to_set());
    assert forall|x: u32| a.contains(x) <==> q.contains(x) by {
        assert(a.to_set().contains(x) <==> q.to_set().contains(x));
    }
    lemma_ascending_same(a, q);
}

/// The members of a set below `n`, ascending.
pub open spec fn members_below(s: Set<u32>, n: nat) -> Seq<u32>
    decreases n,
{
    if n == 0 {
        Seq::empty()
    } else if s.contains((n - 1) as u32) {
        members_below(s, (n - 1) as nat).push((n - 1) as u32)
    } else {
        members_below(s, (n - 1) as nat)
    }
}

proof fn lemma_members_below(s: Set<u32>, n: nat)
    requires
        n <= 0x1_0000_0000,
    ensures
        ascending(members_below(s, n)),
        forall|x: u32| #[trigger] members_below(s, n).contains(x) <==> s.contains(x) && x < n,
    decreases n,
{
    if n > 0 {
        let m = (n - 1) as u32;
        let before = members_below(s, (n - 1) as nat);
        let after = members_below(s, n);
        lemma_members_below(s, (n - 1) as nat);
        assert forall|i: int| 0 <= i < before.len() implies #[trigger] before[i] < n - 1 by {
            assert(before.contains(before[i]));
        }
        assert forall|x: u32| #[trigger] after.contains(x) <==> s.contains(x) && x < n by {
            assert(before.contains(x) <==> s.contains(x) && x < n - 1);
            if s.contains(m) {
                if before.contains(x) {
                    let i = choose|i: int| 0 <= i < before.len() && before[i] == x;
                    assert(after[i] == x);
                }
                if x == m {
                    assert(after[before.len() as int] == x);
                }
                if after.contains(x) && x != m {
                    let i = choose|i: int| 0 <= i < after.len() && after[i] == x;
                    assert(before[i] == x);
                }
            }
        }
    }
}

/// Every set of ids has an ascending list.
pub proof fn lemma_ascending_exists(s: Set<u32>)
    ensures
        ascending(ascending_of(s)),
        ascending_of(s).to_set() == s,
{
    let q = members_below(s, 0x1_0000_0000);
    lemma_members_below(s, 0x1_0000_0000);
    assert(q.to_set() =~= s);
    lemma_ascending_of(q);
}

/// An ascending list of as many values below `n` is the list of all of them.
pub proof fn lemma_ascending_full(a: Seq<u32>, n: nat)
    requires
        ascending(a),
        forall|i: int| 0 <= i < a.len() ==> a[i] < n,
    ensures
        a.len() <= n,
        forall|i: int| 0 <= i < a.len() ==> i <= #[trigger] a[i],
        a.len() == n ==> forall|i: int| 0 <= i < n ==> #[trigger] a[i] == i,
    decreases n,
{
    assert forall|i: int| 0 <= i < a.len() implies i <= #[trigger] a[i] by {
        lemma_ascending_floor(a, i);
    }
    if a.len() > 0 {
        assert(a.len() - 1 <= a[a.len() - 1]);
    }
    if a.len() == n {
        assert forall|i: int| 0 <= i < n implies #[trigger] a[i] == i by {
            lemma_ascending_ceiling(a, n, i);
        }
    }
}

proof fn lemma_ascending_floor(a: Seq<u32>, i: int)
    requires
        ascending(a),
        0 <= i < a.len(),
    ensures
        i <= a[i],
    decreases i,
{
    if i > 0 {
        lemma_ascending_floor(a, i - 1);
        assert(a[i - 1] < a[i]);
    }
}

proof fn lemma_ascending_ceiling(a: Seq<u32>, n: nat, i: int)
    requires
        ascending(a),
        forall|k: int| 0 <= k < a.len() ==> a[k] < n,
        a.len() == n,
        0 <= i < n,
    ensures
        a[i] == i,
    decreases n - i,
{
    lemma_ascending_floor(a, i);
    if i + 1 < n {
        lemma_ascending_ceiling(a, n, i + 1);
        assert(a[i] < a[i + 1]);
    }
}

/// No element is less than one before it.
pub open spec fn sorted(s: Seq<u32>) -> bool {
    forall|i: int, j: int| 0 <= i < j < s.len() ==> s[i] <= s[j]
}

/// The values that two ascending lists have in common.
pub fn intersect(a: Vec<u32>, b: Vec<u32>) -> (out: Vec<u32>)
    requires
        sorted(a@),
        sorted(b@),
    ensures
        sorted(out@),
        out@.to_set() == a@.to_set().intersect(b@.to_set()),
        ascending(a@) && ascending(b@) ==> ascending(out@),
{
    let mut out: Vec<u32> = Vec::new();
    let (mut i, mut j): (usize, usize) = (0, 0);
    while i < a.len() && j < b.len()
        invariant
            i <= a@.len(),
            j <= b@.len(),
            sorted(a@),
            sorted(b@),
            sorted(out@),
            forall|k: int| 0 <= k < out@.len() && i < a@.len() ==> out@[k] <= a@[i as int],
            forall|k: int| 0 <= k < out@.len() && j < b@.len() ==> out@[k] <= b@[j as int],
            ascending(a@) && ascending(b@) ==> ascending(out@) && (forall|k: int|
                0 <= k < out@.len() && i < a@.len() ==> out@[k] < a@[i as int]),
            forall|x: u32| #[trigger]
                out@.contains(x) ==> a@.contains(x) && b@.contains(x),
            // What is behind in one list and still ahead in the other is out.
            forall|k: int, m: int|
                0 <= k < i && 0 <= m < b@.len() && a@[k] == b@[m] ==> out@.contains(a@[k]),
            forall|k: int, m: int|
                0 <= k < a@.len() && 0 <= m < j && a@[k] == b@[m] ==> out@.contains(a@[k]),
        decreases a@.len() - i + b@.len() - j,
    {
        let ghost before = out@;
        let ghost (i0, j0) = (i as int, j as int);
        if a[i] < b[j] {
            assert forall|m: int| 0 <= m < b@.len() && a@[i0] == b@[m] implies out@.contains(
                a@[i0],
            ) by {
                if m >= j {
                    assert(b@[j0] <= b@[m]);
                }
            }
            i = i + 1;
        } else if b[j] < a[i] {
            assert forall|k: int| 0 <= k < a@.len() && a@[k] == b@[j0] implies out@.contains(
                a@[k],
            ) by {
                if k >= i {
                    assert(a@[i0] <= a@[k]);
                }
            }
            j = j + 1;
        } else {
            out.push(a[i]);
            i = i + 1;
            j = j + 1;
            assert(out@.last() == a@[i0]);
            assert(out@.contains(a@[i0]));
            assert forall|x: u32| before.contains(x) implies #[trigger] out@.contains(x) by {
                let w = choose|w: int| 0 <= w < before.len() && before[w] == x;
                assert(out@[w] == x);
            }
            assert forall|x: u32| #[trigger] out@.contains(x) implies a@.contains(x)
                && b@.contains(x) by {
                let w = choose|w: int| 0 <= w < out@.len() && out@[w] == x;
                if w < before.len() {
                    assert(before.contains(x));
                } else {
                    assert(a@[i0] == x && b@[j0] == x);
                }
            }
        }
    }
    assert(out@.to_set() =~= a@.to_set().intersect(b@.to_set())) by {
        assert forall|x: u32| a@.contains(x) && b@.contains(x) implies #[trigger] out@.contains(
            x,
        ) by {
            let k = choose|k: int| 0 <= k < a@.len() && a@[k] == x;
            let m = choose|m: int| 0 <= m < b@.len() && b@[m] == x;
        }
    }
    out
}

/// The values of two ascending lists.
pub fn union(a: Vec<u32>, b: Vec<u32>) -> (out: Vec<u32>)
    requires
        sorted(a@),
        sorted(b@),
    ensures
        sorted(out@),
        out@.to_set() == a@.to_set().union(b@.to_set()),
        ascending(a@) && ascending(b@) ==> ascending(out@),
{
    let mut out: Vec<u32> = Vec::new();
    let (mut i, mut j): (usize, usize) = (0, 0);
    while i < a.len() || j < b.len()
        invariant
            i <= a@.len(),
            j <= b@.len(),
            sorted(a@),
            sorted(b@),
            sorted(out@),
            forall|k: int| 0 <= k < out@.len() && i < a@.len() ==> out@[k] <= a@[i as int],
            forall|k: int| 0 <= k < out@.len() && j < b@.len() ==> out@[k] <= b@[j as int],
            ascending(a@) && ascending(b@) ==> ascending(out@) && (forall|k: int|
                0 <= k < out@.len() && i < a@.len() ==> out@[k] < a@[i as int]) && (forall|k: int|
                0 <= k < out@.len() && j < b@.len() ==> out@[k] < b@[j as int]),
            forall|x: u32| #[trigger]
                out@.contains(x) ==> a@.contains(x) || b@.contains(x),
            forall|k: int| 0 <= k < i ==> out@.contains(#[trigger] a@[k]),
            forall|m: int| 0 <= m < j ==> out@.contains(#[trigger] b@[m]),
        decreases a@.len() - i + b@.len() - j,
    {
        let ghost before = out@;
        let ghost (i0, j0) = (i as int, j as int);
        if j >= b.len() || (i < a.len() && a[i] < b[j]) {
            out.push(a[i]);
            i = i + 1;
        } else if i >= a.len() || b[j] < a[i] {
            out.push(b[j]);
            j = j + 1;
        } else {
            out.push(a[i]);
            i = i + 1;
            j = j + 1;
        }
        assert(out@.contains(out@.last()));
        assert forall|x: u32| before.contains(x) implies #[trigger] out@.contains(x) by {
            let w = choose|w: int| 0 <= w < before.len() && before[w] == x;
            assert(out@[w] == x);
        }
        assert forall|x: u32| #[trigger] out@.contains(x) implies a@.contains(x) || b@.contains(
            x,
        ) by {
            let w = choose|w: int| 0 <= w < out@.len() && out@[w] == x;
            if w < before.len() {
                assert(before.contains(x));
            } else if i > i0 {
                assert(a@[i0] == x);
            } else {
                assert(b@[j0] == x);
            }
        }
    }
    assert(out@.to_set() =~= a@.to_set().union(b@.to_set())) by {
        assert forall|x: u32| a@.contains(x) || b@.contains(x) implies #[trigger] out@.contains(
            x,
        ) by {
            if a@.contains(x) {
                let k = choose|k: int| 0 <= k < a@.len() && a@[k] == x;
                assert(out@.contains(a@[k]));
            } else {
                let m = choose|m: int| 0 <= m < b@.len() && b@[m] == x;
                assert(out@.contains(b@[m]));
            }
        }
    }
    out
}

} // verus!
