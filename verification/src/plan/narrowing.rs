//! A plan narrows: what it requires of a text.

use crate::plan::info::{
    all_of, analyzed, analyzed_choice, analyzed_sequence, any_of, choice, crossed, exact_added, exact_dropped, extended,
    junction, just_empty, needs_one_of, one_of, overgrown, pairs, planned, repeated, sequence, set_simplified,
    shortest, simplified, Facts,
};
use crate::plan::strings::{lemma_with_all_contains, with_all};
use crate::plan::{admits, both, either, law_and_or_meaning, Formula};
use crate::syntax::Tree;
use crate::trigram::{trigram_at, trigrams, windows};
use vstd::prelude::*;

verus! {

/// The trigrams of the literals that every match of a pattern holds.
pub open spec fn needed(t: Tree) -> Set<u32>
    decreases t,
{
    match t {
        Tree::Literal(b) => trigrams(b),
        Tree::Capture(sub) => needed(*sub),
        Tree::Repeat { min, max, sub } => if min > 0 {
            needed(*sub)
        } else {
            Set::empty()
        },
        Tree::Concat(subs) => needed_of(subs),
        _ => Set::empty(),
    }
}

/// The trigrams of the literals that every match of a sequence holds.
pub open spec fn needed_of(subs: Seq<Tree>) -> Set<u32>
    decreases subs,
{
    if subs.len() == 0 {
        Set::empty()
    } else {
        needed_of(subs.drop_last()).union(needed(subs.last()))
    }
}

/// Whether trigrams meet what is known of a pattern.
spec fn met(f: Facts, tris: Set<u32>) -> bool {
    admits(f.query, tris) && (f.exact matches Some(e) ==> admits(needs_one_of(e), tris))
}

proof fn lemma_shortest(l: Seq<Seq<u8>>)
    requires
        l.len() > 0,
    ensures
        exists|i: int| 0 <= i < l.len() && (#[trigger] l[i]).len() == shortest(l),
        forall|i: int| 0 <= i < l.len() ==> shortest(l) <= (#[trigger] l[i]).len(),
    decreases l.len(),
{
    if l.len() == 1 {
        assert(l[0].len() == shortest(l));
    } else {
        let less = l.drop_last();
        lemma_shortest(less);
        let i = choose|i: int| 0 <= i < less.len() && (#[trigger] less[i]).len() == shortest(less);
        assert(l[i] == less[i]);
        assert(l[l.len() - 1] == l.last());
        assert forall|k: int| 0 <= k < l.len() implies shortest(l) <= (#[trigger] l[k]).len() by {
            if k < l.len() - 1 {
                assert(less[k] == l[k]);
            }
        }
    }
}

proof fn lemma_all_of_needs(ts: Seq<u32>, tris: Set<u32>)
    ensures
        admits(all_of(ts), tris) <==> forall|i: int|
            0 <= i < ts.len() ==> tris.contains(#[trigger] ts[i]),
    decreases ts.len(),
{
    if ts.len() > 0 {
        let less = ts.drop_last();
        law_and_or_meaning(all_of(less), Formula::Tri(ts.last()), tris);
        lemma_all_of_needs(less, tris);
        assert(ts[ts.len() - 1] == ts.last());
        if forall|i: int| 0 <= i < less.len() ==> tris.contains(#[trigger] less[i]) {
            assert forall|i: int| 0 <= i < ts.len() - 1 implies tris.contains(#[trigger] ts[i]) by {
                assert(less[i] == ts[i]);
            }
        }
        if forall|i: int| 0 <= i < ts.len() ==> tris.contains(#[trigger] ts[i]) {
            assert forall|i: int| 0 <= i < less.len() implies tris.contains(#[trigger] less[i]) by {
                assert(less[i] == ts[i]);
            }
        }
    }
}

proof fn lemma_windows(s: Seq<u8>, tris: Set<u32>)
    ensures
        admits(all_of(windows(s)), tris) <==> trigrams(s).subset_of(tris),
{
    let ts = windows(s);
    lemma_all_of_needs(ts, tris);
    if trigrams(s).subset_of(tris) {
        assert forall|i: int| 0 <= i < ts.len() implies tris.contains(#[trigger] ts[i]) by {
            assert(ts[i] == trigram_at(s, i));
            assert(trigrams(s).contains(ts[i]));
        }
    }
    if forall|i: int| 0 <= i < ts.len() ==> tris.contains(#[trigger] ts[i]) {
        assert forall|t: u32| trigrams(s).contains(t) implies tris.contains(t) by {
            let i = choose|i: int| 0 <= i < s.len() - 2 && t == #[trigger] trigram_at(s, i);
            assert(ts[i] == t);
        }
    }
}

proof fn lemma_any_of_needs(l: Seq<Seq<u8>>, tris: Set<u32>)
    ensures
        admits(any_of(l), tris) <==> exists|i: int|
            0 <= i < l.len() && #[trigger] trigrams(l[i]).subset_of(tris),
    decreases l.len(),
{
    if l.len() > 0 {
        let less = l.drop_last();
        law_and_or_meaning(any_of(less), all_of(windows(l.last())), tris);
        lemma_any_of_needs(less, tris);
        lemma_windows(l.last(), tris);
        assert(l[l.len() - 1] == l.last());
        if admits(any_of(less), tris) {
            let i = choose|i: int|
                0 <= i < less.len() && #[trigger] trigrams(less[i]).subset_of(tris);
            assert(l[i] == less[i]);
            assert(trigrams(l[i]).subset_of(tris));
        }
        if exists|i: int| 0 <= i < l.len() && #[trigger] trigrams(l[i]).subset_of(tris) {
            let i = choose|i: int| 0 <= i < l.len() && #[trigger] trigrams(l[i]).subset_of(tris);
            if i < l.len() - 1 {
                assert(less[i] == l[i]);
                assert(trigrams(less[i]).subset_of(tris));
            }
        }
    }
}

proof fn lemma_simplified_met(f: Facts, force: bool, tris: Set<u32>)
    requires
        met(simplified(f, force), tris),
    ensures
        met(f, tris),
        (f.exact is None || overgrown(f.exact->Some_0, force)) ==> {
            let g = if f.exact is None {
                f
            } else {
                exact_dropped(f)
            };
            admits(needs_one_of(g.prefix), tris) && admits(needs_one_of(g.suffix), tris)
        },
{
    let g = match f.exact {
        Some(e) => if overgrown(e, force) {
            exact_dropped(f)
        } else {
            f
        },
        None => f,
    };
    if g.exact is None {
        let h = set_simplified(g, false);
        law_and_or_meaning(h.query, needs_one_of(h.suffix), tris);
        law_and_or_meaning(g.query, needs_one_of(g.prefix), tris);
    }
    if let Some(e) = f.exact {
        law_and_or_meaning(f.query, needs_one_of(e), tris);
    }
}

proof fn lemma_pair_parts(a: Seq<Seq<u8>>, b: Seq<Seq<u8>>, z: Seq<u8>)
    requires
        pairs(a, b).contains(z),
    ensures
        exists|i: int, j: int|
            0 <= i < a.len() && 0 <= j < b.len() && z == #[trigger] a[i] + #[trigger] b[j],
    decreases a.len(),
{
    let less = a.drop_last();
    let (p, q) = (pairs(less, b), extended(a.last(), b));
    let k = choose|k: int| 0 <= k < pairs(a, b).len() && pairs(a, b)[k] == z;
    if k < p.len() {
        assert(p[k] == z);
        lemma_pair_parts(less, b, z);
        let (i, j) = choose|i: int, j: int|
            0 <= i < less.len() && 0 <= j < b.len() && z == #[trigger] less[i] + #[trigger] b[j];
        assert(a[i] == less[i]);
        assert(z == a[i] + b[j]);
    } else {
        let j = k - p.len();
        assert(q[j] == z);
        assert(z == a[a.len() - 1] + b[j]);
    }
}

proof fn lemma_trigrams_of_parts(x: Seq<u8>, y: Seq<u8>)
    ensures
        trigrams(x).subset_of(trigrams(x + y)),
        trigrams(y).subset_of(trigrams(x + y)),
{
    let z = x + y;
    assert forall|t: u32| trigrams(x).contains(t) implies trigrams(z).contains(t) by {
        let i = choose|i: int| 0 <= i < x.len() - 2 && t == #[trigger] trigram_at(x, i);
        assert(trigram_at(z, i) == trigram_at(x, i));
    }
    assert forall|t: u32| trigrams(y).contains(t) implies trigrams(z).contains(t) by {
        let i = choose|i: int| 0 <= i < y.len() - 2 && t == #[trigger] trigram_at(y, i);
        assert(trigram_at(z, x.len() + i) == trigram_at(y, i));
    }
}

/// Strings made of two parts need what either part needs.
proof fn lemma_crossed_needs(a: Seq<Seq<u8>>, b: Seq<Seq<u8>>, tris: Set<u32>)
    requires
        admits(needs_one_of(crossed(a, b)), tris),
    ensures
        admits(needs_one_of(a), tris),
        admits(needs_one_of(b), tris),
{
    let all = crossed(a, b);
    lemma_any_of_needs(all, tris);
    let k = if shortest(all) < 3 {
        lemma_shortest(all);
        choose|k: int| 0 <= k < all.len() && (#[trigger] all[k]).len() == shortest(all)
    } else {
        choose|k: int| 0 <= k < all.len() && #[trigger] trigrams(all[k]).subset_of(tris)
    };
    let z = all[k];
    assert(all.contains(z));
    lemma_with_all_contains(Seq::empty(), pairs(a, b), z);
    lemma_pair_parts(a, b, z);
    let (i, j) = choose|i: int, j: int|
        0 <= i < a.len() && 0 <= j < b.len() && z == #[trigger] a[i] + #[trigger] b[j];
    lemma_trigrams_of_parts(a[i], b[j]);
    lemma_shortest(a);
    lemma_shortest(b);
    lemma_any_of_needs(a, tris);
    lemma_any_of_needs(b, tris);
    if shortest(all) >= 3 {
        assert(trigrams(a[i]).subset_of(tris));
        assert(trigrams(b[j]).subset_of(tris));
    } else {
        assert(a[i].len() <= z.len() && b[j].len() <= z.len());
    }
}

proof fn lemma_sequence_met(x: Facts, y: Facts, tris: Set<u32>)
    requires
        met(sequence(x, y), tris),
    ensures
        met(x, tris),
        met(y, tris),
{
    let joint = match (x.exact, y.exact) {
        (Some(xe), Some(ye)) => Facts {
            can_empty: x.can_empty && y.can_empty,
            exact: Some(crossed(xe, ye)),
            prefix: Seq::empty(),
            suffix: Seq::empty(),
            query: both(both(x.query, y.query), junction(x, y)),
        },
        _ => Facts {
            can_empty: x.can_empty && y.can_empty,
            exact: None,
            prefix: match x.exact {
                Some(xe) => crossed(xe, y.prefix),
                None => if x.can_empty {
                    with_all(x.prefix, y.prefix)
                } else {
                    x.prefix
                },
            },
            suffix: match y.exact {
                Some(ye) => crossed(x.suffix, ye),
                None => if y.can_empty {
                    with_all(y.suffix, x.suffix)
                } else {
                    y.suffix
                },
            },
            query: both(both(x.query, y.query), junction(x, y)),
        },
    };
    assert(sequence(x, y) == simplified(joint, false));
    lemma_simplified_met(joint, false, tris);
    law_and_or_meaning(both(x.query, y.query), junction(x, y), tris);
    law_and_or_meaning(x.query, y.query, tris);
    match (x.exact, y.exact) {
        (Some(xe), Some(ye)) => {
            lemma_crossed_needs(xe, ye, tris);
        },
        (Some(xe), None) => {
            lemma_crossed_needs(xe, y.prefix, tris);
        },
        (None, Some(ye)) => {
            lemma_crossed_needs(x.suffix, ye, tris);
        },
        _ => {},
    }
}

proof fn lemma_repeated_met(x: Facts, tris: Set<u32>)
    requires
        met(repeated(x), tris),
    ensures
        met(x, tris),
{
    let open = match x.exact {
        Some(e) => Facts { exact: None, prefix: e, suffix: e, ..x },
        None => x,
    };
    lemma_simplified_met(open, false, tris);
}

proof fn lemma_needed(t: Tree, tris: Set<u32>)
    requires
        met(analyzed(t), tris),
    ensures
        needed(t).subset_of(tris),
    decreases t, 0nat,
{
    match t {
        Tree::Literal(b) => {
            if b.len() >= 3 {
                let f = one_of(seq![b]);
                lemma_simplified_met(f, false, tris);
                lemma_any_of_needs(seq![b], tris);
                lemma_shortest(seq![b]);
                let i = choose|i: int|
                    0 <= i < seq![b].len() && #[trigger] trigrams(seq![b][i]).subset_of(tris);
                assert(seq![b][i] == b);
            }
        },
        Tree::Capture(sub) => {
            lemma_needed(*sub, tris);
        },
        Tree::Repeat { min, max, sub } => {
            if min > 0 {
                lemma_repeated_met(analyzed(*sub), tris);
                lemma_needed(*sub, tris);
            }
        },
        Tree::Concat(subs) => {
            lemma_needed_of(subs, tris);
        },
        _ => {},
    }
}

proof fn lemma_needed_of(subs: Seq<Tree>, tris: Set<u32>)
    requires
        met(analyzed_sequence(subs), tris),
    ensures
        needed_of(subs).subset_of(tris),
    decreases subs, 1nat,
{
    reveal_with_fuel(needed_of, 2);
    if subs.len() == 1 {
        assert(decreases_to!(subs => subs[0]));
        assert(subs.last() == subs[0]);
        lemma_needed(subs[0], tris);
    } else if subs.len() > 1 {
        let less = subs.drop_last();
        lemma_sequence_met(analyzed_sequence(less), analyzed(subs.last()), tris);
        lemma_needed_of(less, tris);
        assert(decreases_to!(subs => subs[subs.len() - 1]));
        lemma_needed(subs.last(), tris);
    }
}

/// A plan requires every trigram of the literals that every match holds: a
/// file without one of them is no candidate.
pub proof fn law_plan_requires_the_literals(t: Tree, tris: Set<u32>)
    requires
        admits(planned(t), tris),
    ensures
        needed(t).subset_of(tris),
{
    let f = simplified(analyzed(t), true);
    if let Some(e) = f.exact {
        law_and_or_meaning(f.query, needs_one_of(e), tris);
    }
    assert(planned(t) == exact_added(f).query);
    lemma_simplified_met(analyzed(t), true, tris);
    lemma_needed(t, tris);
}

/// Whether the strings that are known exactly are all that is known: the query
/// says nothing besides.
spec fn is_plain(f: Facts) -> bool {
    f.exact matches Some(e) ==> e.len() > 0 ==> forall|tris: Set<u32>| #[trigger]
        admits(f.query, tris)
}

proof fn lemma_crossed_parts(a: Seq<Seq<u8>>, b: Seq<Seq<u8>>)
    requires
        crossed(a, b).len() > 0,
    ensures
        a.len() > 0,
        b.len() > 0,
{
    let z = crossed(a, b)[0];
    assert(crossed(a, b).contains(z));
    lemma_with_all_contains(Seq::empty(), pairs(a, b), z);
    lemma_pair_parts(a, b, z);
}

proof fn lemma_sequence_plain(x: Facts, y: Facts)
    requires
        is_plain(x),
        is_plain(y),
    ensures
        is_plain(sequence(x, y)),
{
    if let (Some(xe), Some(ye)) = (x.exact, y.exact) {
        if crossed(xe, ye).len() > 0 {
            lemma_crossed_parts(xe, ye);
            assert forall|tris: Set<u32>| #[trigger]
                admits(both(both(x.query, y.query), junction(x, y)), tris) by {
                law_and_or_meaning(both(x.query, y.query), junction(x, y), tris);
                law_and_or_meaning(x.query, y.query, tris);
            }
        }
    }
}

proof fn lemma_choice_plain(x: Facts, y: Facts)
    requires
        is_plain(x),
        is_plain(y),
    ensures
        is_plain(choice(x, y)),
{
    if let (Some(xe), Some(ye)) = (x.exact, y.exact) {
        let all = with_all(xe, ye);
        if all.len() > 0 {
            assert(all.contains(all[0]));
            lemma_with_all_contains(xe, ye, all[0]);
            assert forall|tris: Set<u32>| #[trigger] admits(either(x.query, y.query), tris) by {
                law_and_or_meaning(x.query, y.query, tris);
            }
        }
    }
}

proof fn lemma_analyzed_plain(t: Tree)
    ensures
        is_plain(analyzed(t)),
    decreases t, 0nat,
{
    match t {
        Tree::Capture(sub) => {
            lemma_analyzed_plain(*sub);
        },
        Tree::Repeat { min, max, sub } => {
            if min == 0 {
                lemma_analyzed_plain(*sub);
                lemma_choice_plain(analyzed(*sub), just_empty());
            }
        },
        Tree::Concat(subs) => {
            lemma_sequence_all_plain(subs);
        },
        Tree::Alternate(subs) => {
            lemma_choice_all_plain(subs);
        },
        _ => {},
    }
}

proof fn lemma_sequence_all_plain(subs: Seq<Tree>)
    ensures
        is_plain(analyzed_sequence(subs)),
    decreases subs, 1nat,
{
    if subs.len() == 1 {
        assert(decreases_to!(subs => subs[0]));
        lemma_analyzed_plain(subs[0]);
    } else if subs.len() > 1 {
        lemma_sequence_all_plain(subs.drop_last());
        assert(decreases_to!(subs => subs[subs.len() - 1]));
        lemma_analyzed_plain(subs.last());
        lemma_sequence_plain(analyzed_sequence(subs.drop_last()), analyzed(subs.last()));
    }
}

proof fn lemma_choice_all_plain(subs: Seq<Tree>)
    ensures
        is_plain(analyzed_choice(subs)),
    decreases subs, 1nat,
{
    if subs.len() == 1 {
        assert(decreases_to!(subs => subs[0]));
        lemma_analyzed_plain(subs[0]);
    } else if subs.len() > 1 {
        lemma_choice_all_plain(subs.drop_last());
        assert(decreases_to!(subs => subs[subs.len() - 1]));
        lemma_analyzed_plain(subs.last());
        lemma_choice_plain(analyzed_choice(subs.drop_last()), analyzed(subs.last()));
    }
}

/// A set that is met is met by one of the two that it was joined from.
proof fn lemma_joined_needs(a: Seq<Seq<u8>>, b: Seq<Seq<u8>>, tris: Set<u32>)
    requires
        admits(needs_one_of(with_all(a, b)), tris),
    ensures
        a.len() > 0 && admits(needs_one_of(a), tris) || b.len() > 0 && admits(
            needs_one_of(b),
            tris,
        ),
{
    let all = with_all(a, b);
    lemma_any_of_needs(all, tris);
    let k = if shortest(all) < 3 {
        lemma_shortest(all);
        choose|k: int| 0 <= k < all.len() && (#[trigger] all[k]).len() == shortest(all)
    } else {
        choose|k: int| 0 <= k < all.len() && #[trigger] trigrams(all[k]).subset_of(tris)
    };
    let z = all[k];
    assert(all.contains(z));
    lemma_with_all_contains(a, b, z);
    let own = if a.contains(z) {
        a
    } else {
        b
    };
    let i = choose|i: int| 0 <= i < own.len() && own[i] == z;
    lemma_shortest(own);
    lemma_any_of_needs(own, tris);
    assert(own[i].len() == z.len());
    if shortest(all) >= 3 {
        assert(trigrams(own[i]).subset_of(tris));
    }
}

proof fn lemma_choice_met(x: Facts, y: Facts, tris: Set<u32>)
    requires
        is_plain(x),
        is_plain(y),
        met(choice(x, y), tris),
    ensures
        met(x, tris) || met(y, tris),
{
    let can_empty = x.can_empty || y.can_empty;
    match (x.exact, y.exact) {
        (Some(xe), Some(ye)) => {
            let joint = Facts {
                can_empty,
                exact: Some(with_all(xe, ye)),
                prefix: Seq::empty(),
                suffix: Seq::empty(),
                query: either(x.query, y.query),
            };
            assert(choice(x, y) == simplified(joint, false));
            lemma_simplified_met(joint, false, tris);
            lemma_joined_needs(xe, ye, tris);
        },
        (Some(xe), None) => {
            let joint = Facts {
                can_empty,
                exact: None,
                prefix: with_all(xe, y.prefix),
                suffix: with_all(xe, y.suffix),
                query: either(exact_added(x).query, y.query),
            };
            assert(choice(x, y) == simplified(joint, false));
            lemma_simplified_met(joint, false, tris);
            law_and_or_meaning(exact_added(x).query, y.query, tris);
            law_and_or_meaning(x.query, needs_one_of(xe), tris);
        },
        (None, Some(ye)) => {
            let joint = Facts {
                can_empty,
                exact: None,
                prefix: with_all(x.prefix, ye),
                suffix: with_all(x.suffix, ye),
                query: either(x.query, exact_added(y).query),
            };
            assert(choice(x, y) == simplified(joint, false));
            lemma_simplified_met(joint, false, tris);
            law_and_or_meaning(x.query, exact_added(y).query, tris);
            law_and_or_meaning(y.query, needs_one_of(ye), tris);
        },
        (None, None) => {
            let joint = Facts {
                can_empty,
                exact: None,
                prefix: with_all(x.prefix, y.prefix),
                suffix: with_all(x.suffix, y.suffix),
                query: either(x.query, y.query),
            };
            assert(choice(x, y) == simplified(joint, false));
            lemma_simplified_met(joint, false, tris);
            law_and_or_meaning(x.query, y.query, tris);
        },
    }
}

proof fn lemma_rest_or_last(subs: Seq<Tree>, tris: Set<u32>)
    requires
        subs.len() > 1,
        met(analyzed_choice(subs), tris),
    ensures
        met(analyzed_choice(subs.drop_last()), tris) || met(analyzed(subs.last()), tris),
{
    lemma_choice_all_plain(subs.drop_last());
    lemma_analyzed_plain(subs.last());
    lemma_choice_met(analyzed_choice(subs.drop_last()), analyzed(subs.last()), tris);
}

proof fn lemma_none_met(tris: Set<u32>)
    ensures
        !met(analyzed_choice(Seq::empty()), tris),
{
}

/// Whether trigrams meet what is known of a tree.
#[verifier::opaque]
spec fn is_met(t: Tree, tris: Set<u32>) -> bool {
    met(analyzed(t), tris)
}

/// Whether trigrams meet what is known of alternatives.
#[verifier::opaque]
spec fn one_is_met(subs: Seq<Tree>, tris: Set<u32>) -> bool {
    met(analyzed_choice(subs), tris)
}

proof fn lemma_one_is_met(subs: Seq<Tree>, tris: Set<u32>)
    requires
        one_is_met(subs, tris),
    ensures
        subs.len() > 0,
        subs.len() == 1 ==> is_met(subs[0], tris),
        subs.len() > 1 ==> one_is_met(subs.drop_last(), tris) || is_met(subs.last(), tris),
{
    reveal(is_met);
    reveal(one_is_met);
    if subs.len() == 0 {
        assert(subs =~= Seq::empty());
        lemma_none_met(tris);
    } else if subs.len() > 1 {
        lemma_rest_or_last(subs, tris);
    }
}

proof fn lemma_some_met(subs: Seq<Tree>, tris: Set<u32>) -> (i: int)
    requires
        one_is_met(subs, tris),
    ensures
        0 <= i < subs.len(),
        is_met(subs[i], tris),
    decreases subs.len(),
{
    lemma_one_is_met(subs, tris);
    if subs.len() == 1 {
        0
    } else if is_met(subs.last(), tris) {
        subs.len() - 1
    } else {
        let i = lemma_some_met(subs.drop_last(), tris);
        assert(subs.drop_last()[i] == subs[i]);
        i
    }
}

/// A plan for alternatives requires what one of them requires: a file without a
/// trigram of each of their literals is no candidate.
pub proof fn law_plan_requires_an_alternative(subs: Seq<Tree>, tris: Set<u32>)
    requires
        admits(planned(Tree::Alternate(subs)), tris),
    ensures
        exists|i: int| 0 <= i < subs.len() && #[trigger] needed(subs[i]).subset_of(tris),
{
    let t = Tree::Alternate(subs);
    let f = simplified(analyzed(t), true);
    if let Some(e) = f.exact {
        law_and_or_meaning(f.query, needs_one_of(e), tris);
    }
    assert(planned(t) == exact_added(f).query);
    lemma_simplified_met(analyzed(t), true, tris);
    assert(one_is_met(subs, tris)) by {
        reveal(one_is_met);
    }
    let i = lemma_some_met(subs, tris);
    assert(met(analyzed(subs[i]), tris)) by {
        reveal(is_met);
    }
    lemma_needed(subs[i], tris);
    assert(needed(subs[i]).subset_of(tris));
}

} // verus!
