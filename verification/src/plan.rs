//! Regex -> trigram query planning.
//!
//! The algorithm is the one Russ Cox described for Google Code Search
//! ("Regular Expression Matching with a Trigram Index",
//! swtch.com/~rsc/regexp/regexp4.html), on the syntax trees of regex-syntax.
//!
//! INVARIANT (correctness): a query may only require trigrams that are
//! guaranteed to appear in any string matching the regex. When in doubt the
//! planner degrades to `Query::All` (scan everything); the confirming
//! scan keeps results exact.

use crate::ids::lemma_push_contains;
use crate::syntax::{parse, parse_result};
use crate::text::{push_chars, string_of};
use crate::trigram::{push_display, trigram_display};
use vstd::prelude::*;

pub mod info;
pub mod narrowing;
pub mod normal;
pub mod soundness;
pub mod strings;

verus! {

/// A trigram query.
#[derive(Debug, PartialEq, Eq)]
pub enum Query {
    /// No index constraint: every indexed file is a candidate.
    All,
    /// Cannot match (e.g. empty alternation).
    Nothing,
    /// Candidate files must contain this trigram.
    Tri(u32),
    And(Vec<Query>),
    Or(Vec<Query>),
}

/// The mathematical form of a query.
pub enum Formula {
    All,
    Nothing,
    Tri(u32),
    And(Seq<Formula>),
    Or(Seq<Formula>),
}

pub open spec fn formulas(qs: Seq<Query>) -> Seq<Formula>
    decreases qs,
{
    Seq::new(
        qs.len(),
        |i: int|
            if 0 <= i < qs.len() {
                qs[i].formula()
            } else {
                Formula::All
            },
    )
}

/// Whether a file with the trigrams `tris` is a candidate.
pub open spec fn admits(f: Formula, tris: Set<u32>) -> bool
    decreases f,
{
    match f {
        Formula::All => true,
        Formula::Nothing => false,
        Formula::Tri(t) => tris.contains(t),
        Formula::And(subs) => all_admit(subs, tris),
        Formula::Or(subs) => some_admits(subs, tris),
    }
}

/// Whether every formula of `s` admits `tris`.
pub open spec fn all_admit(s: Seq<Formula>, tris: Set<u32>) -> bool
    decreases s,
{
    forall|i: int| 0 <= i < s.len() ==> admits(#[trigger] s[i], tris)
}

/// Whether some formula of `s` admits `tris`.
pub open spec fn some_admits(s: Seq<Formula>, tris: Set<u32>) -> bool
    decreases s,
{
    exists|i: int| 0 <= i < s.len() && admits(#[trigger] s[i], tris)
}

pub proof fn lemma_admits(s: Seq<Formula>, tris: Set<u32>)
    ensures
        admits(Formula::And(s), tris) <==> forall|i: int|
            0 <= i < s.len() ==> admits(#[trigger] s[i], tris),
        admits(Formula::Or(s), tris) <==> exists|i: int|
            0 <= i < s.len() && admits(#[trigger] s[i], tris),
{
    assert(admits(Formula::And(s), tris) == all_admit(s, tris));
    assert(admits(Formula::Or(s), tris) == some_admits(s, tris));
}

/// The branches that `f` contributes to a conjunction or disjunction.
pub open spec fn branches(f: Formula, is_and: bool) -> Seq<Formula> {
    match (f, is_and) {
        (Formula::And(subs), true) => subs,
        (Formula::Or(subs), false) => subs,
        _ => seq![f],
    }
}

/// `s` with only the first of equal elements.
pub open spec fn distinct(s: Seq<Formula>) -> Seq<Formula>
    decreases s.len(),
{
    if s.len() == 0 {
        s
    } else {
        let d = distinct(s.drop_last());
        if d.contains(s.last()) {
            d
        } else {
            d.push(s.last())
        }
    }
}

/// The trigram set of a pure conjunction (Tri or And-of-Tri), else None.
pub open spec fn tri_set(f: Formula) -> Option<Set<u32>> {
    match f {
        Formula::Tri(t) => Some(set![t]),
        Formula::And(subs) => if forall|i: int| 0 <= i < subs.len() ==> subs[i] is Tri {
            Some(Set::new(|t: u32| subs.contains(Formula::Tri(t))))
        } else {
            None
        },
        _ => None,
    }
}

/// Whether branch `j` makes branch `i` redundant. In an OR, a branch whose
/// requirement set is a superset of another's is stronger and therefore
/// redundant; in an AND, a branch whose set is a subset of another's is
/// implied by it. Of branches with equal sets the earliest one stays.
pub open spec fn outranks(s: Seq<Formula>, j: int, i: int, is_and: bool) -> bool {
    match (tri_set(s[i]), tri_set(s[j])) {
        (Some(a), Some(b)) => {
            &&& i != j
            &&& if is_and {
                a.subset_of(b)
            } else {
                b.subset_of(a)
            }
            &&& !(a == b && i < j)
        },
        _ => false,
    }
}

/// Whether some branch makes branch `i` redundant.
pub open spec fn redundant(s: Seq<Formula>, i: int, is_and: bool) -> bool {
    exists|j: int| 0 <= j < s.len() && #[trigger] outranks(s, j, i, is_and)
}

/// The branches from `from` on that no branch makes redundant.
pub open spec fn survivors(s: Seq<Formula>, is_and: bool, from: int) -> Seq<Formula>
    decreases s.len() - from,
{
    if from < 0 || from >= s.len() {
        Seq::empty()
    } else if redundant(s, from, is_and) {
        survivors(s, is_and, from + 1)
    } else {
        seq![s[from]] + survivors(s, is_and, from + 1)
    }
}

/// The conjunction or disjunction of some branches.
pub open spec fn joined(kept: Seq<Formula>, is_and: bool) -> Formula {
    if kept.len() == 1 {
        kept[0]
    } else if is_and {
        Formula::And(kept)
    } else {
        Formula::Or(kept)
    }
}

pub open spec fn combined(a: Formula, b: Formula, is_and: bool) -> Formula {
    joined(survivors(distinct(branches(a, is_and) + branches(b, is_and)), is_and, 0), is_and)
}

/// The conjunction of two queries.
pub open spec fn both(a: Formula, b: Formula) -> Formula {
    if a is Nothing || b is Nothing {
        Formula::Nothing
    } else if a is All {
        b
    } else if b is All {
        a
    } else {
        combined(a, b, true)
    }
}

/// The disjunction of two queries.
pub open spec fn either(a: Formula, b: Formula) -> Formula {
    if a is All || b is All {
        Formula::All
    } else if a is Nothing {
        b
    } else if b is Nothing {
        a
    } else {
        combined(a, b, false)
    }
}

proof fn lemma_distinct_contains(s: Seq<Formula>, f: Formula)
    ensures
        distinct(s).contains(f) <==> s.contains(f),
    decreases s.len(),
{
    if s.len() > 0 {
        let d = distinct(s.drop_last());
        lemma_distinct_contains(s.drop_last(), f);
        assert(s =~= s.drop_last().push(s.last()));
        lemma_push_contains(s.drop_last(), s.last(), f);
        lemma_push_contains(d, s.last(), f);
    }
}

proof fn lemma_outranks_chain(s: Seq<Formula>, k: int, j: int, i: int, is_and: bool)
    requires
        outranks(s, k, j, is_and),
        outranks(s, j, i, is_and),
    ensures
        outranks(s, k, i, is_and),
{
    let a = tri_set(s[i])->Some_0;
    let b = tri_set(s[j])->Some_0;
    let c = tri_set(s[k])->Some_0;
    if a == c {
        assert(a =~= b);
    }
    if i == k {
        assert(a == c);
    }
}

/// Among branch `i` and the first `n` branches there is one that is `i` or
/// outranks it and that none of the first `n` outranks.
proof fn lemma_top(s: Seq<Formula>, i: int, n: int, is_and: bool) -> (r: int)
    requires
        0 <= i < s.len(),
        0 <= n <= s.len(),
    ensures
        0 <= r < s.len(),
        r == i || outranks(s, r, i, is_and),
        forall|j: int| 0 <= j < n ==> !#[trigger] outranks(s, j, r, is_and),
    decreases n,
{
    if n == 0 {
        i
    } else {
        let r = lemma_top(s, i, n - 1, is_and);
        if outranks(s, n - 1, r, is_and) {
            if r != i {
                lemma_outranks_chain(s, n - 1, r, i, is_and);
            }
            assert forall|j: int| 0 <= j < n implies !#[trigger] outranks(s, j, n - 1, is_and) by {
                if j < n - 1 && outranks(s, j, n - 1, is_and) {
                    lemma_outranks_chain(s, j, n - 1, r, is_and);
                }
            }
            n - 1
        } else {
            r
        }
    }
}

proof fn lemma_tri_set(f: Formula, tris: Set<u32>)
    requires
        tri_set(f) is Some,
    ensures
        admits(f, tris) <==> tri_set(f)->Some_0.subset_of(tris),
{
    let a = tri_set(f)->Some_0;
    match f {
        Formula::Tri(t) => {
            assert(a.contains(t));
        },
        Formula::And(subs) => {
            lemma_admits(subs, tris);
            if admits(f, tris) {
                assert forall|t: u32| a.contains(t) implies tris.contains(t) by {
                    let i = choose|i: int| 0 <= i < subs.len() && subs[i] == Formula::Tri(t);
                    assert(admits(subs[i], tris));
                }
            }
            if a.subset_of(tris) {
                assert forall|i: int| 0 <= i < subs.len() implies admits(#[trigger] subs[i], tris) by {
                    let t = subs[i]->Tri_0;
                    assert(subs.contains(Formula::Tri(t)));
                    assert(a.contains(t));
                }
            }
        },
        _ => {},
    }
}

proof fn lemma_survivors_contains(s: Seq<Formula>, is_and: bool, from: int, f: Formula)
    requires
        0 <= from <= s.len(),
    ensures
        survivors(s, is_and, from).contains(f) <==> exists|i: int|
            from <= i < s.len() && #[trigger] s[i] == f && !redundant(s, i, is_and),
    decreases s.len() - from,
{
    if from < s.len() {
        let rest = survivors(s, is_and, from + 1);
        lemma_survivors_contains(s, is_and, from + 1, f);
        if redundant(s, from, is_and) {
        } else {
            let all = seq![s[from]] + rest;
            if all.contains(f) {
                let i = choose|i: int| 0 <= i < all.len() && all[i] == f;
                if i == 0 {
                    assert(s[from] == f);
                } else {
                    assert(rest[i - 1] == f);
                }
            }
            if exists|i: int| from <= i < s.len() && #[trigger] s[i] == f && !redundant(s, i, is_and) {
                let i = choose|i: int|
                    from <= i < s.len() && #[trigger] s[i] == f && !redundant(s, i, is_and);
                if i == from {
                    assert(all[0] == f);
                } else {
                    let k = choose|k: int| 0 <= k < rest.len() && rest[k] == f;
                    assert(all[k + 1] == f);
                }
            }
        }
    }
}

/// Dropping redundant branches changes nothing of what a query admits.
pub proof fn law_prune_keeps_meaning(s: Seq<Formula>, is_and: bool, tris: Set<u32>)
    ensures
        is_and ==> admits(Formula::And(survivors(s, true, 0)), tris) == admits(
            Formula::And(s),
            tris,
        ),
        !is_and ==> admits(Formula::Or(survivors(s, false, 0)), tris) == admits(
            Formula::Or(s),
            tris,
        ),
{
    let kept = survivors(s, is_and, 0);
    lemma_admits(s, tris);
    lemma_admits(kept, tris);
    assert forall|k: int| 0 <= k < kept.len() implies s.contains(#[trigger] kept[k]) by {
        lemma_survivors_contains(s, is_and, 0, kept[k]);
        assert(kept.contains(kept[k]));
    }
    if is_and {
        if admits(Formula::And(s), tris) {
            assert forall|k: int| 0 <= k < kept.len() implies admits(#[trigger] kept[k], tris) by {
                assert(s.contains(kept[k]));
                let i = choose|i: int| 0 <= i < s.len() && s[i] == kept[k];
                assert(admits(s[i], tris));
            }
        }
        if admits(Formula::And(kept), tris) {
            assert forall|i: int| 0 <= i < s.len() implies admits(#[trigger] s[i], tris) by {
                let r = lemma_top(s, i, s.len() as int, is_and);
                lemma_survivors_contains(s, is_and, 0, s[r]);
                assert(kept.contains(s[r]));
                let k = choose|k: int| 0 <= k < kept.len() && kept[k] == s[r];
                assert(admits(kept[k], tris));
                if r != i {
                    lemma_tri_set(s[i], tris);
                    lemma_tri_set(s[r], tris);
                }
            }
        }
    } else {
        if admits(Formula::Or(kept), tris) {
            let k = choose|k: int| 0 <= k < kept.len() && admits(#[trigger] kept[k], tris);
            assert(s.contains(kept[k]));
            let i = choose|i: int| 0 <= i < s.len() && s[i] == kept[k];
            assert(admits(s[i], tris));
        }
        if admits(Formula::Or(s), tris) {
            let i = choose|i: int| 0 <= i < s.len() && admits(#[trigger] s[i], tris);
            let r = lemma_top(s, i, s.len() as int, is_and);
            lemma_survivors_contains(s, is_and, 0, s[r]);
            assert(kept.contains(s[r]));
            let k = choose|k: int| 0 <= k < kept.len() && kept[k] == s[r];
            if r != i {
                lemma_tri_set(s[i], tris);
                lemma_tri_set(s[r], tris);
            }
            assert(admits(kept[k], tris));
        }
    }
}

proof fn lemma_combined(a: Formula, b: Formula, is_and: bool, tris: Set<u32>)
    ensures
        is_and ==> (admits(combined(a, b, is_and), tris) <==> admits(a, tris) && admits(b, tris)),
        !is_and ==> (admits(combined(a, b, is_and), tris) <==> admits(a, tris) || admits(b, tris)),
{
    let x = branches(a, is_and);
    let y = branches(b, is_and);
    let s = x + y;
    let d = distinct(s);
    let kept = survivors(d, is_and, 0);
    lemma_admits(s, tris);
    lemma_admits(kept, tris);
    lemma_admits(d, tris);
    lemma_admits(x, tris);
    lemma_admits(y, tris);
    law_prune_keeps_meaning(d, is_and, tris);
    assert forall|f: Formula| #[trigger] d.contains(f) <==> s.contains(f) by {
        lemma_distinct_contains(s, f);
    }
    lemma_branches(a, is_and, tris);
    lemma_branches(b, is_and, tris);
    assert forall|k: int| 0 <= k < d.len() implies s.contains(#[trigger] d[k]) by {
        assert(d.contains(d[k]));
    }
    assert forall|k: int| 0 <= k < s.len() implies d.contains(#[trigger] s[k]) by {
        assert(s.contains(s[k]));
        assert(d.contains(s[k]) <==> s.contains(s[k]));
    }
    assert forall|k: int| 0 <= k < x.len() implies #[trigger] x[k] == s[k] by {}
    assert forall|k: int| 0 <= k < y.len() implies #[trigger] y[k] == s[k + x.len()] by {}
    if is_and {
        assert(admits(Formula::And(d), tris) <==> admits(Formula::And(s), tris)) by {
            if admits(Formula::And(s), tris) {
                assert forall|k: int| 0 <= k < d.len() implies admits(#[trigger] d[k], tris) by {
                    let i = choose|i: int| 0 <= i < s.len() && s[i] == d[k];
                    assert(admits(s[i], tris));
                }
            }
            if admits(Formula::And(d), tris) {
                assert forall|k: int| 0 <= k < s.len() implies admits(#[trigger] s[k], tris) by {
                    let i = choose|i: int| 0 <= i < d.len() && d[i] == s[k];
                    assert(admits(d[i], tris));
                }
            }
        }
        assert(admits(Formula::And(s), tris) <==> admits(Formula::And(x), tris) && admits(
            Formula::And(y),
            tris,
        )) by {
            if admits(Formula::And(s), tris) {
                assert forall|k: int| 0 <= k < x.len() implies admits(#[trigger] x[k], tris) by {
                    assert(admits(s[k], tris));
                }
                assert forall|k: int| 0 <= k < y.len() implies admits(#[trigger] y[k], tris) by {
                    assert(admits(s[k + x.len()], tris));
                }
            }
            if admits(Formula::And(x), tris) && admits(Formula::And(y), tris) {
                assert forall|k: int| 0 <= k < s.len() implies admits(#[trigger] s[k], tris) by {
                    if k < x.len() {
                        assert(admits(x[k], tris));
                    } else {
                        assert(admits(y[k - x.len()], tris));
                    }
                }
            }
        }
        if kept.len() == 1 {
            assert(admits(Formula::And(kept), tris) <==> admits(kept[0], tris));
        }
    } else {
        assert(admits(Formula::Or(d), tris) <==> admits(Formula::Or(s), tris)) by {
            if admits(Formula::Or(d), tris) {
                let k = choose|k: int| 0 <= k < d.len() && admits(#[trigger] d[k], tris);
                assert(s.contains(d[k]));
                let i = choose|i: int| 0 <= i < s.len() && s[i] == d[k];
                assert(admits(s[i], tris));
            }
            if admits(Formula::Or(s), tris) {
                let k = choose|k: int| 0 <= k < s.len() && admits(#[trigger] s[k], tris);
                assert(d.contains(s[k]));
                let i = choose|i: int| 0 <= i < d.len() && d[i] == s[k];
                assert(admits(d[i], tris));
            }
        }
        assert(admits(Formula::Or(s), tris) <==> admits(Formula::Or(x), tris) || admits(
            Formula::Or(y),
            tris,
        )) by {
            if admits(Formula::Or(s), tris) {
                let k = choose|k: int| 0 <= k < s.len() && admits(#[trigger] s[k], tris);
                if k < x.len() {
                    assert(admits(x[k], tris));
                } else {
                    assert(admits(y[k - x.len()], tris));
                }
            }
            if admits(Formula::Or(x), tris) {
                let k = choose|k: int| 0 <= k < x.len() && admits(#[trigger] x[k], tris);
                assert(admits(s[k], tris));
            }
            if admits(Formula::Or(y), tris) {
                let k = choose|k: int| 0 <= k < y.len() && admits(#[trigger] y[k], tris);
                assert(admits(s[k + x.len()], tris));
            }
        }
        if kept.len() == 1 {
            assert(admits(Formula::Or(kept), tris) <==> admits(kept[0], tris));
        }
    }
}

proof fn lemma_branches(a: Formula, is_and: bool, tris: Set<u32>)
    ensures
        is_and ==> admits(Formula::And(branches(a, is_and)), tris) == admits(a, tris),
        !is_and ==> admits(Formula::Or(branches(a, is_and)), tris) == admits(a, tris),
{
    let s = branches(a, is_and);
    lemma_admits(s, tris);
    if s == seq![a] {
        assert(s[0] == a);
        if is_and {
            assert(admits(Formula::And(s), tris) <==> admits(s[0], tris));
        } else {
            assert(admits(Formula::Or(s), tris) <==> admits(s[0], tris));
        }
    }
}

/// A conjunction admits what both queries admit, a disjunction what either
/// does.
pub proof fn law_and_or_meaning(a: Formula, b: Formula, tris: Set<u32>)
    ensures
        admits(both(a, b), tris) <==> admits(a, tris) && admits(b, tris),
        admits(either(a, b), tris) <==> admits(a, tris) || admits(b, tris),
{
    lemma_combined(a, b, true, tris);
    lemma_combined(a, b, false, tris);
}

/// A file with more trigrams is a candidate whenever one with fewer is.
pub proof fn law_admits_grows(f: Formula, small: Set<u32>, big: Set<u32>)
    requires
        small.subset_of(big),
        admits(f, small),
    ensures
        admits(f, big),
    decreases f,
{
    match f {
        Formula::And(subs) => {
            lemma_admits(subs, small);
            lemma_admits(subs, big);
            assert forall|i: int| 0 <= i < subs.len() implies admits(#[trigger] subs[i], big) by {
                law_admits_grows(subs[i], small, big);
            }
        },
        Formula::Or(subs) => {
            lemma_admits(subs, small);
            lemma_admits(subs, big);
            let i = choose|i: int| 0 <= i < subs.len() && admits(#[trigger] subs[i], small);
            law_admits_grows(subs[i], small, big);
        },
        _ => {},
    }
}

impl Query {
    pub open spec fn formula(self) -> Formula
        decreases self,
    {
        match self {
            Query::All => Formula::All,
            Query::Nothing => Formula::Nothing,
            Query::Tri(t) => Formula::Tri(t),
            Query::And(subs) => Formula::And(formulas(subs@)),
            Query::Or(subs) => Formula::Or(formulas(subs@)),
        }
    }
}

fn copy_query(q: &Query) -> (r: Query)
    ensures
        r.formula() == q.formula(),
    decreases q,
{
    match q {
        Query::All => Query::All,
        Query::Nothing => Query::Nothing,
        Query::Tri(t) => Query::Tri(*t),
        Query::And(subs) => Query::And(copy_list(subs)),
        Query::Or(subs) => Query::Or(copy_list(subs)),
    }
}

fn copy_list(qs: &Vec<Query>) -> (r: Vec<Query>)
    ensures
        formulas(r@) == formulas(qs@),
    decreases qs,
{
    let mut r: Vec<Query> = Vec::new();
    for i in 0..qs.len()
        invariant
            r@.len() == i,
            forall|k: int| 0 <= k < i ==> (#[trigger] r@[k]).formula() == qs@[k].formula(),
    {
        assert(decreases_to!(qs => qs@[i as int]));
        r.push(copy_query(&qs[i]));
    }
    assert(formulas(r@) =~= formulas(qs@));
    r
}

impl Clone for Query {
    fn clone(&self) -> (r: Query)
        ensures
            r.formula() == self.formula(),
    {
        copy_query(self)
    }
}

fn same(a: &Query, b: &Query) -> (r: bool)
    ensures
        r == (a.formula() == b.formula()),
    decreases a,
{
    match (a, b) {
        (Query::All, Query::All) => true,
        (Query::Nothing, Query::Nothing) => true,
        (Query::Tri(x), Query::Tri(y)) => *x == *y,
        (Query::And(x), Query::And(y)) => same_list(x, y),
        (Query::Or(x), Query::Or(y)) => same_list(x, y),
        _ => false,
    }
}

fn same_list(x: &Vec<Query>, y: &Vec<Query>) -> (r: bool)
    ensures
        r == (formulas(x@) == formulas(y@)),
    decreases x,
{
    if x.len() != y.len() {
        assert(formulas(x@).len() != formulas(y@).len());
        return false;
    }
    for i in 0..x.len()
        invariant
            x@.len() == y@.len(),
            forall|k: int| 0 <= k < i ==> #[trigger] formulas(x@)[k] == formulas(y@)[k],
    {
        assert(decreases_to!(x => x@[i as int]));
        if !same(&x[i], &y[i]) {
            assert(formulas(x@)[i as int] != formulas(y@)[i as int]);
            return false;
        }
    }
    assert(formulas(x@) =~= formulas(y@));
    true
}

fn contains_tri(v: &Vec<u32>, t: u32) -> (r: bool)
    ensures
        r == v@.contains(t),
{
    for i in 0..v.len()
        invariant
            forall|k: int| 0 <= k < i ==> v@[k] != t,
    {
        if v[i] == t {
            return true;
        }
    }
    false
}

fn is_subset(a: &Vec<u32>, b: &Vec<u32>) -> (r: bool)
    ensures
        r == a@.to_set().subset_of(b@.to_set()),
{
    for i in 0..a.len()
        invariant
            forall|k: int| 0 <= k < i ==> b@.contains(a@[k]),
    {
        if !contains_tri(b, a[i]) {
            assert(a@.to_set().contains(a@[i as int]));
            assert(!b@.to_set().contains(a@[i as int]));
            return false;
        }
    }
    assert forall|t: u32| a@.to_set().contains(t) implies b@.to_set().contains(t) by {
        let k = choose|k: int| 0 <= k < a@.len() && a@[k] == t;
        assert(b@.contains(a@[k]));
    }
    true
}

/// The trigram set of a pure conjunction (Tri or And-of-Tri), else None.
fn as_tri_set(q: &Query) -> (r: Option<Vec<u32>>)
    ensures
        match r {
            Some(v) => tri_set(q.formula()) == Some(v@.to_set()),
            None => tri_set(q.formula()) is None,
        },
{
    match q {
        Query::Tri(t) => {
            let v: Vec<u32> = vec![*t];
            assert(v@[0] == *t);
            assert(v@.to_set() =~= set![*t]);
            Some(v)
        },
        Query::And(subs) => {
            let ghost fs = formulas(subs@);
            let mut v: Vec<u32> = Vec::new();
            for i in 0..subs.len()
                invariant
                    fs == formulas(subs@),
                    q.formula() == Formula::And(fs),
                    v@.len() == i,
                    forall|k: int| 0 <= k < i ==> #[trigger] fs[k] == Formula::Tri(v@[k]),
            {
                assert(fs[i as int] == subs@[i as int].formula());
                match &subs[i] {
                    Query::Tri(t) => {
                        v.push(*t);
                    },
                    _ => {
                        assert(!(fs[i as int] is Tri));
                        return None;
                    },
                }
            }
            proof {
                let all = Set::new(|t: u32| fs.contains(Formula::Tri(t)));
                assert forall|t: u32| v@.to_set().contains(t) <==> all.contains(t) by {
                    if v@.contains(t) {
                        let k = choose|k: int| 0 <= k < v@.len() && v@[k] == t;
                        assert(fs[k] == Formula::Tri(t));
                    }
                    if fs.contains(Formula::Tri(t)) {
                        let k = choose|k: int| 0 <= k < fs.len() && fs[k] == Formula::Tri(t);
                        assert(v@[k] == t);
                    }
                }
                assert(v@.to_set() =~= all);
            }
            Some(v)
        },
        _ => None,
    }
}

/// Whether branch `j` makes branch `i` redundant, by their trigram sets.
fn implied(si: &Option<Vec<u32>>, sj: &Option<Vec<u32>>, earlier: bool, is_and: bool) -> (r: bool)
    ensures
        r == match (*si, *sj) {
            (Some(a), Some(b)) => (if is_and {
                a@.to_set().subset_of(b@.to_set())
            } else {
                b@.to_set().subset_of(a@.to_set())
            }) && !(a@.to_set() == b@.to_set() && earlier),
            _ => false,
        },
{
    match (si, sj) {
        (Some(a), Some(b)) => {
            let below = is_subset(a, b);
            let above = is_subset(b, a);
            assert(below && above <==> a@.to_set() =~= b@.to_set());
            (if is_and {
                below
            } else {
                above
            }) && !(below && above && earlier)
        },
        _ => false,
    }
}

/// Drop branches implied by other branches.
fn prune_subsumed(parts: &mut Vec<Query>, is_and: bool)
    ensures
        formulas(final(parts)@) == survivors(formulas(old(parts)@), is_and, 0),
{
    let n: usize = parts.len();
    let ghost s = formulas(parts@);
    let mut sets: Vec<Option<Vec<u32>>> = Vec::new();
    let mut keep: Vec<bool> = Vec::new();
    for i in 0..n
        invariant
            n == parts@.len(),
            s == formulas(parts@),
            sets@.len() == i,
            keep@.len() == i,
            forall|k: int| 0 <= k < i ==> keep@[k],
            forall|k: int|
                0 <= k < i ==> match #[trigger] sets@[k] {
                    Some(v) => tri_set(s[k]) == Some(v@.to_set()),
                    None => tri_set(s[k]) is None,
                },
    {
        assert(s[i as int] == parts@[i as int].formula());
        sets.push(as_tri_set(&parts[i]));
        keep.push(true);
    }
    for i in 0..n
        invariant
            n == s.len(),
            sets@.len() == n,
            keep@.len() == n,
            forall|k: int|
                0 <= k < n ==> match #[trigger] sets@[k] {
                    Some(v) => tri_set(s[k]) == Some(v@.to_set()),
                    None => tri_set(s[k]) is None,
                },
            forall|k: int| i <= k < n ==> keep@[k],
            // What is kept is not outranked by what is kept; what is not kept
            // is outranked by something kept.
            forall|a: int, b: int|
                0 <= a < i && 0 <= b < n && keep@[a] && keep@[b] ==> !#[trigger] outranks(
                    s,
                    b,
                    a,
                    is_and,
                ),
            forall|a: int|
                0 <= a < n && !#[trigger] keep@[a] ==> exists|b: int|
                    0 <= b < n && keep@[b] && #[trigger] outranks(s, b, a, is_and),
    {
        let ghost before = keep@;
        let mut by: Option<usize> = None;
        for j in 0..n
            invariant
                n == s.len(),
                sets@.len() == n,
                keep@.len() == n,
                i < n,
                keep@ == before,
                forall|k: int|
                    0 <= k < n ==> match #[trigger] sets@[k] {
                        Some(v) => tri_set(s[k]) == Some(v@.to_set()),
                        None => tri_set(s[k]) is None,
                    },
                match by {
                    None => forall|b: int|
                        0 <= b < j && keep@[b] ==> !#[trigger] outranks(s, b, i as int, is_and),
                    Some(b) => b < n && keep@[b as int] && outranks(
                        s,
                        b as int,
                        i as int,
                        is_and,
                    ),
                },
        {
            assert(sets@[i as int] == sets@[i as int] && sets@[j as int] == sets@[j as int]);
            if by.is_none() && i != j && keep[j] && implied(&sets[i], &sets[j], i < j, is_and) {
                by = Some(j);
            }
        }
        match by {
            None => {},
            Some(top) => {
                keep.set(i, false);
                assert forall|a: int| 0 <= a < n && !#[trigger] keep@[a] implies exists|b: int|
                    0 <= b < n && keep@[b] && #[trigger] outranks(s, b, a, is_and) by {
                    if a == i {
                        assert(keep@[top as int]);
                    } else {
                        assert(!before[a]);
                        let b = choose|b: int|
                            0 <= b < n && before[b] && #[trigger] outranks(s, b, a, is_and);
                        if b == i {
                            lemma_outranks_chain(s, top as int, i as int, a, is_and);
                            assert(keep@[top as int]);
                        } else {
                            assert(keep@[b]);
                        }
                    }
                }
            },
        }
    }
    assert forall|a: int| 0 <= a < n implies #[trigger] keep@[a] == !redundant(s, a, is_and) by {
        if keep@[a] && redundant(s, a, is_and) {
            let j = choose|j: int| 0 <= j < s.len() && #[trigger] outranks(s, j, a, is_and);
            if !keep@[j] {
                let b = choose|b: int|
                    0 <= b < n && keep@[b] && #[trigger] outranks(s, b, j, is_and);
                lemma_outranks_chain(s, b, j, a, is_and);
            }
        }
    }
    let mut i: usize = n;
    assert(formulas(parts@) =~= s.take(n as int) + survivors(s, is_and, n as int));
    while i > 0
        invariant
            i <= n,
            n == s.len(),
            keep@.len() == n,
            parts@.len() >= i,
            forall|a: int| 0 <= a < n ==> #[trigger] keep@[a] == !redundant(s, a, is_and),
            formulas(parts@) == s.take(i as int) + survivors(s, is_and, i as int),
        decreases i,
    {
        i -= 1;
        let ghost before = parts@;
        let ghost rest = survivors(s, is_and, i as int + 1);
        assert(keep@[i as int] == !redundant(s, i as int, is_and));
        if !keep[i] {
            parts.remove(i);
            assert(formulas(parts@) =~= formulas(before).remove(i as int));
            assert(formulas(parts@) =~= s.take(i as int) + rest);
        } else {
            assert(s.take(i as int + 1) + rest =~= s.take(i as int) + (seq![s[i as int]] + rest));
        }
    }
    assert(s.take(0) + survivors(s, is_and, 0) =~= survivors(s, is_and, 0));
}

fn contains_query(list: &Vec<Query>, q: &Query) -> (r: bool)
    ensures
        r == formulas(list@).contains(q.formula()),
{
    for i in 0..list.len()
        invariant
            forall|k: int| 0 <= k < i ==> #[trigger] formulas(list@)[k] != q.formula(),
    {
        if same(&list[i], q) {
            assert(formulas(list@)[i as int] == q.formula());
            return true;
        }
    }
    false
}

/// Moves the branches that `q` contributes onto `parts`, without repeats.
fn add_branches(parts: &mut Vec<Query>, q: Query, is_and: bool, Ghost(done): Ghost<Seq<Formula>>)
    requires
        formulas(old(parts)@) == distinct(done),
    ensures
        formulas(final(parts)@) == distinct(done + branches(q.formula(), is_and)),
{
    let ghost f = q.formula();
    match (q, is_and) {
        (Query::And(subs), true) => add_all(parts, subs, Ghost(done)),
        (Query::Or(subs), false) => add_all(parts, subs, Ghost(done)),
        (q, _) => {
            add_one(parts, q, Ghost(done));
            assert(done + seq![f] =~= done.push(f));
        },
    }
}

fn add_one(parts: &mut Vec<Query>, q: Query, Ghost(done): Ghost<Seq<Formula>>)
    requires
        formulas(old(parts)@) == distinct(done),
    ensures
        formulas(final(parts)@) == distinct(done.push(q.formula())),
{
    let ghost f = q.formula();
    let ghost before = parts@;
    assert(done.push(f).drop_last() =~= done);
    if !contains_query(parts, &q) {
        parts.push(q);
        assert(formulas(parts@) =~= formulas(before).push(f));
    }
}

fn add_all(parts: &mut Vec<Query>, subs: Vec<Query>, Ghost(done): Ghost<Seq<Formula>>)
    requires
        formulas(old(parts)@) == distinct(done),
    ensures
        formulas(final(parts)@) == distinct(done + formulas(subs@)),
{
    let ghost all = formulas(subs@);
    let mut rest = subs;
    let mut backward: Vec<Query> = Vec::new();
    let n: usize = rest.len();
    for k in 0..n
        invariant
            n == all.len(),
            rest@.len() == n - k,
            backward@.len() == k,
            formulas(rest@) == all.take(n - k),
            formulas(backward@) == all.skip(n - k).reverse(),
    {
        let ghost r0 = rest@;
        let ghost b0 = backward@;
        match rest.pop() {
            Some(q) => {
                assert(formulas(r0).last() == q.formula());
                backward.push(q);
                assert(formulas(rest@) =~= formulas(r0).drop_last());
                assert(formulas(backward@) =~= formulas(b0).push(q.formula()));
                assert(all.skip(n - k - 1).reverse() =~= all.skip(n - k).reverse().push(
                    all[n - k - 1],
                ));
                assert(formulas(rest@) =~= all.take(n - k - 1));
            },
            None => {},
        }
    }
    assert(all.skip(0) =~= all);
    assert(done + all.take(0) =~= done);
    for k in 0..n
        invariant
            n == all.len(),
            backward@.len() == n - k,
            formulas(backward@) == all.skip(k as int).reverse(),
            formulas(parts@) == distinct(done + all.take(k as int)),
    {
        let ghost b0 = backward@;
        match backward.pop() {
            Some(q) => {
                assert(formulas(b0).last() == q.formula());
                assert(q.formula() == all[k as int]);
                assert(formulas(backward@) =~= formulas(b0).drop_last());
                assert(all.skip(k as int).reverse().drop_last() =~= all.skip(
                    k as int + 1,
                ).reverse());
                add_one(parts, q, Ghost(done + all.take(k as int)));
                assert((done + all.take(k as int)).push(all[k as int]) =~= done + all.take(
                    k as int + 1,
                ));
            },
            None => {},
        }
    }
    assert(all.take(n as int) =~= all);
}

fn combine(a: Query, b: Query, is_and: bool) -> (r: Query)
    ensures
        r.formula() == combined(a.formula(), b.formula(), is_and),
{
    let ghost x = branches(a.formula(), is_and);
    let ghost y = branches(b.formula(), is_and);
    let mut parts: Vec<Query> = Vec::new();
    assert(formulas(parts@) =~= Seq::<Formula>::empty());
    add_branches(&mut parts, a, is_and, Ghost(Seq::<Formula>::empty()));
    assert(Seq::<Formula>::empty() + x =~= x);
    add_branches(&mut parts, b, is_and, Ghost(x));
    prune_subsumed(&mut parts, is_and);
    if parts.len() == 1 {
        let ghost kept = formulas(parts@);
        match parts.pop() {
            Some(q) => {
                assert(kept[0] == q.formula());
                return q;
            },
            None => {},
        }
    }
    if is_and {
        Query::And(parts)
    } else {
        Query::Or(parts)
    }
}

impl Query {
    pub fn and(self, other: Query) -> (r: Query)
        ensures
            r.formula() == both(self.formula(), other.formula()),
    {
        match (self, other) {
            (Query::Nothing, _) => Query::Nothing,
            (_, Query::Nothing) => Query::Nothing,
            (Query::All, q) => q,
            (q, Query::All) => q,
            (a, b) => combine(a, b, true),
        }
    }

    pub fn or(self, other: Query) -> (r: Query)
        ensures
            r.formula() == either(self.formula(), other.formula()),
    {
        match (self, other) {
            (Query::All, _) => Query::All,
            (_, Query::All) => Query::All,
            (Query::Nothing, q) => q,
            (q, Query::Nothing) => q,
            (a, b) => combine(a, b, false),
        }
    }
}

/// The lexicographic order of texts.
pub open spec fn text_before(a: Seq<char>, b: Seq<char>) -> bool
    decreases a.len(),
{
    if b.len() == 0 {
        false
    } else if a.len() == 0 {
        true
    } else if a[0] != b[0] {
        a[0] < b[0]
    } else {
        text_before(a.drop_first(), b.drop_first())
    }
}

/// The ascending list `l` with `x` put behind every text not after it.
pub open spec fn text_placed(l: Seq<Seq<char>>, x: Seq<char>) -> Seq<Seq<char>>
    decreases l.len(),
{
    if l.len() == 0 {
        seq![x]
    } else if text_before(x, l[0]) {
        seq![x] + l
    } else {
        seq![l[0]] + text_placed(l.drop_first(), x)
    }
}

/// The texts of `l` in ascending order.
pub open spec fn text_sorted(l: Seq<Seq<char>>) -> Seq<Seq<char>>
    decreases l.len(),
{
    if l.len() == 0 {
        l
    } else {
        text_placed(text_sorted(l.drop_last()), l.last())
    }
}

/// The texts of `l`, one after the other, with `sep` between them.
pub open spec fn text_joined(l: Seq<Seq<char>>, sep: char) -> Seq<char>
    decreases l.len(),
{
    if l.len() == 0 {
        Seq::empty()
    } else if l.len() == 1 {
        l[0]
    } else {
        text_joined(l.drop_last(), sep).push(sep) + l.last()
    }
}

/// The human-readable form of a query, normalized (children sorted).
pub open spec fn shown(f: Formula) -> Seq<char>
    decreases f,
{
    match f {
        Formula::All => seq!['A', 'L', 'L'],
        Formula::Nothing => seq!['N', 'O', 'N', 'E'],
        Formula::Tri(t) => seq!['"'] + trigram_display(t) + seq!['"'],
        Formula::And(subs) => text_joined(text_sorted(all_shown(subs)), ' '),
        Formula::Or(subs) => seq!['('] + text_joined(text_sorted(all_shown(subs)), '|') + seq![')'],
    }
}

pub open spec fn all_shown(s: Seq<Formula>) -> Seq<Seq<char>>
    decreases s,
{
    Seq::new(
        s.len(),
        |i: int|
            if 0 <= i < s.len() {
                shown(s[i])
            } else {
                Seq::empty()
            },
    )
}

/// The views of texts.
pub open spec fn lines(items: Seq<Vec<char>>) -> Seq<Seq<char>> {
    Seq::new(items.len(), |i: int| items[i]@)
}

fn is_before(a: &Vec<char>, b: &Vec<char>) -> (r: bool)
    ensures
        r == text_before(a@, b@),
{
    let mut i: usize = 0;
    proof {
        assert(a@.skip(0) =~= a@);
        assert(b@.skip(0) =~= b@);
    }
    loop
        invariant
            i <= a@.len(),
            i <= b@.len(),
            text_before(a@, b@) == text_before(a@.skip(i as int), b@.skip(i as int)),
        decreases a@.len() - i,
    {
        if i == b.len() {
            return false;
        }
        if i == a.len() {
            return true;
        }
        let x: char = a[i];
        let y: char = b[i];
        if x != y {
            return x < y;
        }
        assert(a@.skip(i as int).drop_first() =~= a@.skip(i as int + 1));
        assert(b@.skip(i as int).drop_first() =~= b@.skip(i as int + 1));
        i += 1;
    }
}

fn place_text(l: &mut Vec<Vec<char>>, x: Vec<char>)
    ensures
        lines(final(l)@) == text_placed(lines(old(l)@), x@),
{
    let ghost s = lines(l@);
    let ghost items = l@;
    let n: usize = l.len();
    let mut i: usize = 0;
    proof {
        assert(s.skip(0) =~= s);
        assert(s.take(0) + text_placed(s, x@) =~= text_placed(s, x@));
    }
    while i < n
        invariant
            i <= n,
            n == items.len(),
            l@ == items,
            s == lines(items),
            s == lines(old(l)@),
            text_placed(s, x@) == s.take(i as int) + text_placed(s.skip(i as int), x@),
        decreases n - i,
    {
        let ghost rest = s.skip(i as int);
        assert(rest[0] == items[i as int]@);
        if is_before(&x, &l[i]) {
            let ghost added = x@;
            l.insert(i, x);
            assert(lines(l@) =~= s.take(i as int) + (seq![added] + rest));
            return;
        }
        assert(rest.drop_first() =~= s.skip(i as int + 1));
        assert(s.take(i as int) + (seq![rest[0]] + text_placed(rest.drop_first(), x@)) =~= s.take(
            i as int + 1,
        ) + text_placed(s.skip(i as int + 1), x@));
        i += 1;
    }
    assert(s.skip(n as int) =~= Seq::<Seq<char>>::empty());
    assert(s.take(n as int) =~= s);
    let ghost added = x@;
    l.push(x);
    assert(lines(l@) =~= s + seq![added]);
}

fn show_sorted(qs: &Vec<Query>, sep: char) -> (r: Vec<char>)
    ensures
        r@ == text_joined(text_sorted(all_shown(formulas(qs@))), sep),
    decreases qs,
{
    let ghost all = all_shown(formulas(qs@));
    let mut parts: Vec<Vec<char>> = Vec::new();
    assert(lines(parts@) =~= Seq::<Seq<char>>::empty());
    assert(all.take(0) =~= Seq::<Seq<char>>::empty());
    for i in 0..qs.len()
        invariant
            all == all_shown(formulas(qs@)),
            lines(parts@) == text_sorted(all.take(i as int)),
    {
        assert(decreases_to!(qs => qs@[i as int]));
        let part = show(&qs[i]);
        assert(all[i as int] == part@);
        assert(all.take(i as int + 1).drop_last() =~= all.take(i as int));
        place_text(&mut parts, part);
    }
    assert(all.take(qs@.len() as int) =~= all);
    let ghost sorted = lines(parts@);
    let mut out: Vec<char> = Vec::new();
    assert(sorted.take(0) =~= Seq::<Seq<char>>::empty());
    for i in 0..parts.len()
        invariant
            sorted == lines(parts@),
            out@ == text_joined(sorted.take(i as int), sep),
    {
        assert(sorted.take(i as int + 1).drop_last() =~= sorted.take(i as int));
        if i > 0 {
            out.push(sep);
        } else {
            assert(out@ + sorted[0] =~= sorted[0]);
        }
        push_chars(&mut out, &parts[i]);
    }
    assert(sorted.take(parts@.len() as int) =~= sorted);
    out
}

fn show(q: &Query) -> (r: Vec<char>)
    ensures
        r@ == shown(q.formula()),
    decreases q,
{
    match q {
        Query::All => vec!['A', 'L', 'L'],
        Query::Nothing => vec!['N', 'O', 'N', 'E'],
        Query::Tri(t) => {
            let mut out: Vec<char> = vec!['"'];
            push_display(&mut out, *t);
            out.push('"');
            assert(out@ =~= seq!['"'] + trigram_display(*t) + seq!['"']);
            out
        },
        Query::And(subs) => show_sorted(subs, ' '),
        Query::Or(subs) => {
            let inner = show_sorted(subs, '|');
            let mut out: Vec<char> = vec!['('];
            push_chars(&mut out, &inner);
            out.push(')');
            assert(out@ =~= seq!['('] + inner@ + seq![')']);
            out
        },
    }
}

impl Query {
    /// Human-readable form, normalized (children sorted) for tests/debugging.
    pub fn display(&self) -> (r: String)
        ensures
            r@ == shown(self.formula()),
    {
        string_of(&show(self))
    }
}

/// A pattern that is not a regex.
#[derive(Debug, PartialEq, Eq)]
pub struct SyntaxError {
    pub message: String,
}

/// Plan the index query for `pattern`. Errors only on invalid regex syntax.
pub fn plan(pattern: &str, case_insensitive: bool) -> (r: Result<Query, SyntaxError>)
    ensures
        match (r, parse_result(pattern@, case_insensitive)) {
            (Ok(q), Ok(tree)) => q.formula() == info::planned(tree),
            (Err(e), Err(message)) => e.message@ == message,
            _ => false,
        },
{
    match parse(pattern, case_insensitive) {
        Ok(node) => Ok(info::plan_tree(&node)),
        Err(message) => Err(SyntaxError { message }),
    }
}

} // verus!
