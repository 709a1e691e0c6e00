//! The text of a query does not depend on the order of its parts.

use crate::plan::{all_shown, shown, text_before, text_placed, text_sorted, Formula};
use vstd::multiset::group_multiset_axioms;
use vstd::prelude::*;
use vstd::relations::{sorted_by, total_ordering};
use vstd::seq_lib::{lemma_sorted_unique, to_multiset_build, to_multiset_insert, to_multiset_remove};

verus! {

/// Whether `g` is `f` with the parts of its And and Or nodes, at any depth,
/// in whatever order.
pub open spec fn rearranged(f: Formula, g: Formula) -> bool
    decreases f, 0nat,
{
    match (f, g) {
        (Formula::And(a), Formula::And(b)) => parts_rearranged(a, b),
        (Formula::Or(a), Formula::Or(b)) => parts_rearranged(a, b),
        _ => f == g,
    }
}

/// Whether `b` holds the parts of `a`, each rearranged in turn, in whatever
/// order.
pub open spec fn parts_rearranged(a: Seq<Formula>, b: Seq<Formula>) -> bool
    decreases a, 0nat,
{
    if a.len() == 0 {
        b.len() == 0
    } else {
        exists|k: int|
            0 <= k < b.len() && rearranged(a.last(), #[trigger] b[k]) && parts_rearranged(
                a.drop_last(),
                b.remove(k),
            )
    }
}

/// The lexicographic order of texts, with equal texts in order.
spec fn not_after() -> spec_fn(Seq<char>, Seq<char>) -> bool {
    |a: Seq<char>, b: Seq<char>| !text_before(b, a)
}

proof fn lemma_same_when_unordered(a: Seq<char>, b: Seq<char>)
    requires
        !text_before(a, b),
        !text_before(b, a),
    ensures
        a == b,
    decreases a.len(),
{
    if a.len() > 0 && b.len() > 0 {
        lemma_same_when_unordered(a.drop_first(), b.drop_first());
        assert(a =~= seq![a[0]] + a.drop_first());
        assert(b =~= seq![b[0]] + b.drop_first());
    } else {
        assert(a =~= b);
    }
}

proof fn lemma_before_not_after(a: Seq<char>, b: Seq<char>)
    requires
        text_before(a, b),
    ensures
        !text_before(b, a),
    decreases a.len(),
{
    if a.len() > 0 && b.len() > 0 && a[0] == b[0] {
        lemma_before_not_after(a.drop_first(), b.drop_first());
    }
}

proof fn lemma_not_after_chains(a: Seq<char>, b: Seq<char>, c: Seq<char>)
    requires
        !text_before(b, a),
        !text_before(c, b),
    ensures
        !text_before(c, a),
    decreases a.len(),
{
    if a.len() > 0 && b.len() > 0 && c.len() > 0 && a[0] == b[0] && b[0] == c[0] {
        lemma_not_after_chains(a.drop_first(), b.drop_first(), c.drop_first());
    }
}

proof fn lemma_total()
    ensures
        total_ordering(not_after()),
{
    let r = not_after();
    assert forall|x: Seq<char>, y: Seq<char>| #[trigger] r(x, y) || #[trigger] r(y, x) by {
        if text_before(y, x) {
            lemma_before_not_after(y, x);
        }
    }
    assert forall|x: Seq<char>| #[trigger] r(x, x) by {
        if text_before(x, x) {
            lemma_before_not_after(x, x);
        }
    }
    assert forall|x: Seq<char>, y: Seq<char>| #[trigger] r(x, y) && #[trigger] r(y, x) implies x
        == y by {
        lemma_same_when_unordered(x, y);
    }
    assert forall|x: Seq<char>, y: Seq<char>, z: Seq<char>| #[trigger]
        r(x, y) && #[trigger] r(y, z) implies r(x, z) by {
        lemma_not_after_chains(x, y, z);
    }
}

/// Placing a text keeps a list in order, and adds the text to it.
proof fn lemma_placed(l: Seq<Seq<char>>, x: Seq<char>)
    requires
        sorted_by(l, not_after()),
    ensures
        sorted_by(text_placed(l, x), not_after()),
        text_placed(l, x).to_multiset() == l.to_multiset().insert(x),
        forall|i: int|
            0 <= i < text_placed(l, x).len() ==> (#[trigger] text_placed(l, x)[i]) == x
                || l.contains(text_placed(l, x)[i]),
    decreases l.len(),
{
    broadcast use group_multiset_axioms;

    let r = not_after();
    let m = text_placed(l, x);
    lemma_total();
    if l.len() == 0 {
        assert(m =~= Seq::<Seq<char>>::empty().push(x));
        assert(l =~= Seq::<Seq<char>>::empty());
        to_multiset_build(l, x);
    } else if text_before(x, l[0]) {
        assert(m =~= l.insert(0, x));
        to_multiset_insert(l, 0, x);
        lemma_before_not_after(x, l[0]);
        assert(r(x, l[0]));
        assert forall|i: int, j: int| 0 <= i < j < m.len() implies #[trigger] r(m[i], m[j]) by {
            assert(m[j] == l[j - 1]);
            if i > 0 {
                assert(r(l[i - 1], l[j - 1]));
            } else if j > 1 {
                assert(r(l[0], l[j - 1]));
                lemma_not_after_chains(x, l[0], l[j - 1]);
            }
        }
        assert forall|i: int| 0 <= i < m.len() implies (#[trigger] m[i]) == x || l.contains(
            m[i],
        ) by {
            if i > 0 {
                assert(m[i] == l[i - 1]);
            }
        }
    } else {
        let rest = l.drop_first();
        let placed = text_placed(rest, x);
        assert forall|i: int, j: int| 0 <= i < j < rest.len() implies #[trigger] r(
            rest[i],
            rest[j],
        ) by {
            assert(r(l[i + 1], l[j + 1]));
        }
        lemma_placed(rest, x);
        assert(m =~= placed.insert(0, l[0]));
        assert(l =~= rest.insert(0, l[0]));
        to_multiset_insert(placed, 0, l[0]);
        to_multiset_insert(rest, 0, l[0]);
        assert(rest.to_multiset().insert(x).insert(l[0]) =~= rest.to_multiset().insert(
            l[0],
        ).insert(x));
        assert(r(l[0], x));
        assert forall|i: int, j: int| 0 <= i < j < m.len() implies #[trigger] r(m[i], m[j]) by {
            assert(m[j] == placed[j - 1]);
            if i > 0 {
                assert(r(placed[i - 1], placed[j - 1]));
            } else if placed[j - 1] != x {
                assert(rest.contains(placed[j - 1]));
                let k = choose|k: int| 0 <= k < rest.len() && rest[k] == placed[j - 1];
                assert(r(l[0], l[k + 1]));
            }
        }
        assert forall|i: int| 0 <= i < m.len() implies (#[trigger] m[i]) == x || l.contains(
            m[i],
        ) by {
            if i > 0 {
                assert(m[i] == placed[i - 1]);
                if m[i] != x {
                    assert(rest.contains(m[i]));
                    let k = choose|k: int| 0 <= k < rest.len() && rest[k] == m[i];
                    assert(l[k + 1] == m[i]);
                }
            }
        }
    }
}

proof fn lemma_sorted(l: Seq<Seq<char>>)
    ensures
        sorted_by(text_sorted(l), not_after()),
        text_sorted(l).to_multiset() == l.to_multiset(),
    decreases l.len(),
{
    if l.len() > 0 {
        lemma_sorted(l.drop_last());
        lemma_placed(text_sorted(l.drop_last()), l.last());
        to_multiset_build(l.drop_last(), l.last());
        assert(l.drop_last().push(l.last()) =~= l);
    }
}

/// Sorting gives the same list for the same texts in another order.
proof fn lemma_sorted_same(a: Seq<Seq<char>>, b: Seq<Seq<char>>)
    requires
        a.to_multiset() == b.to_multiset(),
    ensures
        text_sorted(a) == text_sorted(b),
{
    lemma_sorted(a);
    lemma_sorted(b);
    lemma_total();
    lemma_sorted_unique(text_sorted(a), text_sorted(b), not_after());
}

proof fn lemma_parts_shown(a: Seq<Formula>, b: Seq<Formula>)
    requires
        parts_rearranged(a, b),
    ensures
        all_shown(a).to_multiset() == all_shown(b).to_multiset(),
    decreases a, 0nat,
{
    broadcast use group_multiset_axioms;

    if a.len() == 0 {
        assert(all_shown(a) =~= all_shown(b));
    } else {
        let k = choose|k: int|
            0 <= k < b.len() && rearranged(a.last(), #[trigger] b[k]) && parts_rearranged(
                a.drop_last(),
                b.remove(k),
            );
        law_display_ignores_order(a.last(), b[k]);
        lemma_parts_shown(a.drop_last(), b.remove(k));
        let (sa, sb) = (all_shown(a), all_shown(b));
        assert(all_shown(a.drop_last()) =~= sa.drop_last());
        assert(all_shown(b.remove(k)) =~= sb.remove(k));
        to_multiset_build(sa.drop_last(), sa.last());
        assert(sa.drop_last().push(sa.last()) =~= sa);
        to_multiset_remove(sb, k);
        sb.to_multiset_ensures();
        assert(sb.contains(sb[k]));
        assert(sb[k] == sa.last());
        assert(sb.to_multiset().remove(sb[k]).insert(sb[k]) =~= sb.to_multiset());
    }
}

/// The text of a query does not depend on the order of the parts of its And
/// and Or nodes, at any depth.
pub proof fn law_display_ignores_order(f: Formula, g: Formula)
    requires
        rearranged(f, g),
    ensures
        shown(f) == shown(g),
    decreases f, 0nat,
{
    match (f, g) {
        (Formula::And(a), Formula::And(b)) => {
            lemma_parts_shown(a, b);
            lemma_sorted_same(all_shown(a), all_shown(b));
        },
        (Formula::Or(a), Formula::Or(b)) => {
            lemma_parts_shown(a, b);
            lemma_sorted_same(all_shown(a), all_shown(b));
        },
        _ => {},
    }
}

} // verus!
