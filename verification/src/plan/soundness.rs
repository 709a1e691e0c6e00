//! The planner never hides a match: every text that holds a match of the
//! pattern is admitted by the pattern's query.

use crate::plan::info::{
    all_of, analyzed, analyzed_choice, analyzed_sequence, any_of, anything, byte_count,
    bytes_between, char_count, chars_between, choice, class_bytes, class_chars, class_facts,
    crossed, cut, cuts, exact_added, exact_dropped, extended, head_of, heads, junction, just_empty,
    just_nothing, needs_one_of, one_of, overgrown, pairs, planned, repeated, sequence,
    set_simplified, shortened, simplified, tail_of, tails, Facts, MAX_CLASS,
};
use crate::plan::strings::{lemma_with_all_contains, with_all};
use crate::plan::{admits, both, either, law_admits_grows, law_and_or_meaning, Formula};
use crate::syntax::{
    accepts, accepts_all, accepts_some, accepts_times, allowed, has_byte, has_char, Tree,
};
use crate::text::is_code;
use crate::trigram::{trigram_at, trigrams, windows};
use vstd::prelude::*;
use vstd::utf8::encode_utf8;

verus! {

/// Whether `x` stands in `s` from offset `k` on.
pub open spec fn stands_at(x: Seq<u8>, s: Seq<u8>, k: int) -> bool {
    0 <= k && k + x.len() <= s.len() && s.subrange(k, k + x.len()) == x
}

/// Whether some string of the set begins `s`.
pub open spec fn begins(l: Seq<Seq<u8>>, s: Seq<u8>) -> bool {
    exists|p: Seq<u8>| #[trigger] l.contains(p) && stands_at(p, s, 0)
}

/// Whether some string of the set ends `s`.
pub open spec fn ends(l: Seq<Seq<u8>>, s: Seq<u8>) -> bool {
    exists|p: Seq<u8>| #[trigger] l.contains(p) && stands_at(p, s, s.len() - p.len())
}

/// Whether the facts hold of the match `s`.
#[verifier::opaque]
pub open spec fn covers(f: Facts, s: Seq<u8>) -> bool {
    &&& match f.exact {
        Some(e) => e.contains(s),
        None => begins(f.prefix, s) && ends(f.suffix, s),
    }
    &&& admits(f.query, trigrams(s))
}

proof fn lemma_trigrams_of_part(x: Seq<u8>, s: Seq<u8>, k: int)
    requires
        stands_at(x, s, k),
    ensures
        trigrams(x).subset_of(trigrams(s)),
{
    assert forall|t: u32| trigrams(x).contains(t) implies trigrams(s).contains(t) by {
        let i = choose|i: int| 0 <= i < x.len() - 2 && t == #[trigger] trigram_at(x, i);
        let y = s.subrange(k, k + x.len());
        assert(y[i] == s[k + i] && y[i + 1] == s[k + i + 1] && y[i + 2] == s[k + i + 2]);
        assert(trigram_at(s, k + i) == t);
    }
}

proof fn lemma_all_of(ts: Seq<u32>, tris: Set<u32>)
    requires
        forall|i: int| 0 <= i < ts.len() ==> tris.contains(#[trigger] ts[i]),
    ensures
        admits(all_of(ts), tris),
    decreases ts.len(),
{
    if ts.len() > 0 {
        assert forall|i: int| 0 <= i < ts.drop_last().len() implies tris.contains(
            #[trigger] ts.drop_last()[i],
        ) by {
            assert(ts.drop_last()[i] == ts[i]);
        }
        lemma_all_of(ts.drop_last(), tris);
        assert(tris.contains(ts[ts.len() - 1]));
        law_and_or_meaning(all_of(ts.drop_last()), Formula::Tri(ts.last()), tris);
    }
}

proof fn lemma_any_of(l: Seq<Seq<u8>>, i: int, tris: Set<u32>)
    requires
        0 <= i < l.len(),
        trigrams(l[i]).subset_of(tris),
    ensures
        admits(any_of(l), tris),
    decreases l.len(),
{
    law_and_or_meaning(any_of(l.drop_last()), all_of(windows(l.last())), tris);
    if i < l.len() - 1 {
        assert(l.drop_last()[i] == l[i]);
        lemma_any_of(l.drop_last(), i, tris);
    } else {
        let ts = windows(l.last());
        assert forall|j: int| 0 <= j < ts.len() implies tris.contains(#[trigger] ts[j]) by {
            assert(ts[j] == trigram_at(l[i], j));
            assert(trigrams(l[i]).contains(ts[j]));
        }
        lemma_all_of(ts, tris);
    }
}

/// A text that holds a string of the set is admitted by what the set needs.
proof fn lemma_needs(l: Seq<Seq<u8>>, x: Seq<u8>, s: Seq<u8>, k: int)
    requires
        l.contains(x),
        stands_at(x, s, k),
    ensures
        admits(needs_one_of(l), trigrams(s)),
{
    lemma_trigrams_of_part(x, s, k);
    let i = choose|i: int| 0 <= i < l.len() && l[i] == x;
    lemma_any_of(l, i, trigrams(s));
}

proof fn lemma_cut_begins(l: Seq<Seq<u8>>, n: nat, s: Seq<u8>)
    requires
        begins(l, s),
        n >= 1,
    ensures
        begins(with_all(Seq::empty(), cuts(l, n, false)), s),
{
    let p = choose|p: Seq<u8>| #[trigger] l.contains(p) && stands_at(p, s, 0);
    let i = choose|i: int| 0 <= i < l.len() && l[i] == p;
    let q = cut(p, n, false);
    assert(cuts(l, n, false)[i] == q);
    lemma_with_all_contains(Seq::empty(), cuts(l, n, false), q);
    assert(s.subrange(0, q.len() as int) =~= q) by {
        assert forall|j: int| 0 <= j < q.len() implies s[j] == q[j] by {
            assert(s.subrange(0, p.len() as int)[j] == p[j]);
        }
    }
    assert(stands_at(q, s, 0));
}

proof fn lemma_cut_ends(l: Seq<Seq<u8>>, n: nat, s: Seq<u8>)
    requires
        ends(l, s),
        n >= 1,
    ensures
        ends(with_all(Seq::empty(), cuts(l, n, true)), s),
{
    let p = choose|p: Seq<u8>| #[trigger] l.contains(p) && stands_at(p, s, s.len() - p.len());
    let i = choose|i: int| 0 <= i < l.len() && l[i] == p;
    let q = cut(p, n, true);
    assert(cuts(l, n, true)[i] == q);
    lemma_with_all_contains(Seq::empty(), cuts(l, n, true), q);
    let from = s.len() - q.len();
    assert(s.subrange(from, s.len() as int) =~= q) by {
        let d = p.len() - q.len();
        assert forall|j: int| 0 <= j < q.len() implies s[from + j] == q[j] by {
            assert(s.subrange(s.len() - p.len(), s.len() as int)[d + j] == p[d + j]);
        }
    }
    assert(stands_at(q, s, from));
}

proof fn lemma_shortened(l: Seq<Seq<u8>>, n: nat, s: Seq<u8>)
    requires
        n >= 1,
    ensures
        begins(l, s) ==> begins(shortened(l, n, false), s),
        ends(l, s) ==> ends(shortened(l, n, true), s),
    decreases n,
{
    if begins(l, s) {
        lemma_cut_begins(l, n, s);
    }
    if ends(l, s) {
        lemma_cut_ends(l, n, s);
    }
    if n > 1 {
        lemma_shortened(with_all(Seq::empty(), cuts(l, n, false)), (n - 1) as nat, s);
        lemma_shortened(with_all(Seq::empty(), cuts(l, n, true)), (n - 1) as nat, s);
    }
}

proof fn lemma_set_simplified(f: Facts, is_suffix: bool, s: Seq<u8>)
    requires
        f.exact is None,
        covers(f, s),
    ensures
        covers(set_simplified(f, is_suffix), s),
        set_simplified(f, is_suffix).exact is None,
{
    reveal(covers);
    let l = if is_suffix {
        f.suffix
    } else {
        f.prefix
    };
    lemma_shortened(l, 3, s);
    if is_suffix {
        let p = choose|p: Seq<u8>| #[trigger] l.contains(p) && stands_at(p, s, s.len() - p.len());
        lemma_needs(l, p, s, s.len() - p.len());
    } else {
        let p = choose|p: Seq<u8>| #[trigger] l.contains(p) && stands_at(p, s, 0);
        lemma_needs(l, p, s, 0);
    }
    law_and_or_meaning(f.query, needs_one_of(l), trigrams(s));
}

proof fn lemma_whole(s: Seq<u8>)
    ensures
        stands_at(s, s, 0),
{
    assert(s.subrange(0, s.len() as int) =~= s);
}

proof fn lemma_exact_added(f: Facts, s: Seq<u8>)
    requires
        covers(f, s),
    ensures
        covers(exact_added(f), s),
{
    reveal(covers);
    match f.exact {
        Some(e) => {
            lemma_whole(s);
            lemma_needs(e, s, s, 0);
            law_and_or_meaning(f.query, needs_one_of(e), trigrams(s));
        },
        None => {},
    }
}

proof fn lemma_exact_dropped(f: Facts, s: Seq<u8>)
    requires
        covers(f, s),
        f.exact is Some,
    ensures
        covers(exact_dropped(f), s),
        exact_dropped(f).exact is None,
{
    reveal(covers);
    lemma_exact_added(f, s);
    let e = f.exact->Some_0;
    let i = choose|i: int| 0 <= i < e.len() && e[i] == s;
    assert(heads(e)[i] == head_of(s));
    assert(tails(e)[i] == tail_of(s));
    lemma_with_all_contains(f.prefix, heads(e), head_of(s));
    lemma_with_all_contains(f.suffix, tails(e), tail_of(s));
    assert(s.subrange(0, head_of(s).len() as int) =~= head_of(s));
    assert(s.subrange(s.len() - tail_of(s).len(), s.len() as int) =~= tail_of(s));
    assert(stands_at(head_of(s), s, 0));
    assert(stands_at(tail_of(s), s, s.len() - tail_of(s).len()));
}

proof fn lemma_simplified(f: Facts, force: bool, s: Seq<u8>)
    requires
        covers(f, s),
    ensures
        covers(simplified(f, force), s),
{
    let g = match f.exact {
        Some(e) => if overgrown(e, force) {
            exact_dropped(f)
        } else {
            f
        },
        None => f,
    };
    if f.exact is Some {
        lemma_exact_dropped(f, s);
    }
    if g.exact is None {
        lemma_set_simplified(g, false, s);
        lemma_set_simplified(set_simplified(g, false), true, s);
    }
}

proof fn lemma_pairs(a: Seq<Seq<u8>>, b: Seq<Seq<u8>>, x: Seq<u8>, y: Seq<u8>)
    requires
        a.contains(x),
        b.contains(y),
    ensures
        pairs(a, b).contains(x + y),
    decreases a.len(),
{
    let i = choose|i: int| 0 <= i < a.len() && a[i] == x;
    let j = choose|j: int| 0 <= j < b.len() && b[j] == y;
    let rest = pairs(a.drop_last(), b);
    if i < a.len() - 1 {
        assert(a.drop_last()[i] == x);
        lemma_pairs(a.drop_last(), b, x, y);
        let k = choose|k: int| 0 <= k < rest.len() && rest[k] == x + y;
        assert(pairs(a, b)[k] == x + y);
    } else {
        assert(extended(x, b)[j] == x + y);
        assert(pairs(a, b)[rest.len() + j] == x + y);
    }
}

proof fn lemma_crossed(a: Seq<Seq<u8>>, b: Seq<Seq<u8>>, x: Seq<u8>, y: Seq<u8>)
    requires
        a.contains(x),
        b.contains(y),
    ensures
        crossed(a, b).contains(x + y),
{
    lemma_pairs(a, b, x, y);
    lemma_with_all_contains(Seq::empty(), pairs(a, b), x + y);
}

proof fn lemma_begins_longer(l: Seq<Seq<u8>>, a: Seq<u8>, b: Seq<u8>)
    requires
        begins(l, a),
    ensures
        begins(l, a + b),
{
    let p = choose|p: Seq<u8>| #[trigger] l.contains(p) && stands_at(p, a, 0);
    assert((a + b).subrange(0, p.len() as int) =~= a.subrange(0, p.len() as int));
    assert(stands_at(p, a + b, 0));
}

proof fn lemma_ends_longer(l: Seq<Seq<u8>>, a: Seq<u8>, b: Seq<u8>)
    requires
        ends(l, b),
    ensures
        ends(l, a + b),
{
    let p = choose|p: Seq<u8>| #[trigger] l.contains(p) && stands_at(p, b, b.len() - p.len());
    let s = a + b;
    assert(s.subrange(s.len() - p.len(), s.len() as int) =~= b.subrange(
        b.len() - p.len(),
        b.len() as int,
    ));
    assert(stands_at(p, s, s.len() - p.len()));
}

proof fn lemma_begins_more(l: Seq<Seq<u8>>, xs: Seq<Seq<u8>>, s: Seq<u8>)
    ensures
        begins(l, s) || begins(xs, s) ==> begins(with_all(l, xs), s),
        ends(l, s) || ends(xs, s) ==> ends(with_all(l, xs), s),
{
    if begins(l, s) {
        let p = choose|p: Seq<u8>| #[trigger] l.contains(p) && stands_at(p, s, 0);
        lemma_with_all_contains(l, xs, p);
    }
    if begins(xs, s) {
        let p = choose|p: Seq<u8>| #[trigger] xs.contains(p) && stands_at(p, s, 0);
        lemma_with_all_contains(l, xs, p);
    }
    if ends(l, s) {
        let p = choose|p: Seq<u8>| #[trigger] l.contains(p) && stands_at(p, s, s.len() - p.len());
        lemma_with_all_contains(l, xs, p);
    }
    if ends(xs, s) {
        let p = choose|p: Seq<u8>| #[trigger] xs.contains(p) && stands_at(p, s, s.len() - p.len());
        lemma_with_all_contains(l, xs, p);
    }
}

proof fn lemma_member_begins(l: Seq<Seq<u8>>, s: Seq<u8>)
    requires
        l.contains(s),
    ensures
        begins(l, s),
        ends(l, s),
{
    lemma_whole(s);
    assert(stands_at(s, s, s.len() - s.len()));
}

proof fn lemma_cross_begins(a: Seq<Seq<u8>>, b: Seq<Seq<u8>>, x: Seq<u8>, y: Seq<u8>)
    requires
        a.contains(x),
        begins(b, y),
    ensures
        begins(crossed(a, b), x + y),
{
    let p = choose|p: Seq<u8>| #[trigger] b.contains(p) && stands_at(p, y, 0);
    lemma_crossed(a, b, x, p);
    let q = x + p;
    assert((x + y).subrange(0, q.len() as int) =~= x + y.subrange(0, p.len() as int));
    assert(stands_at(q, x + y, 0));
}

proof fn lemma_cross_ends(a: Seq<Seq<u8>>, b: Seq<Seq<u8>>, x: Seq<u8>, y: Seq<u8>)
    requires
        ends(a, x),
        b.contains(y),
    ensures
        ends(crossed(a, b), x + y),
{
    let p = choose|p: Seq<u8>| #[trigger] a.contains(p) && stands_at(p, x, x.len() - p.len());
    lemma_crossed(a, b, p, y);
    let q = p + y;
    let s = x + y;
    assert(s.subrange(s.len() - q.len(), s.len() as int) =~= x.subrange(
        x.len() - p.len(),
        x.len() as int,
    ) + y);
    assert(stands_at(q, s, s.len() - q.len()));
}

proof fn lemma_junction(x: Facts, y: Facts, a: Seq<u8>, b: Seq<u8>)
    requires
        covers(x, a),
        covers(y, b),
    ensures
        admits(junction(x, y), trigrams(a + b)),
{
    reveal(covers);
    if x.exact is None && y.exact is None {
        let p = choose|p: Seq<u8>| #[trigger]
            x.suffix.contains(p) && stands_at(p, a, a.len() - p.len());
        let q = choose|q: Seq<u8>| #[trigger] y.prefix.contains(q) && stands_at(q, b, 0);
        lemma_crossed(x.suffix, y.prefix, p, q);
        let k = a.len() - p.len();
        assert((a + b).subrange(k, k + (p + q).len()) =~= a.subrange(k, a.len() as int)
            + b.subrange(0, q.len() as int));
        lemma_needs(crossed(x.suffix, y.prefix), p + q, a + b, k);
    }
}

proof fn lemma_sequence(x: Facts, y: Facts, a: Seq<u8>, b: Seq<u8>)
    requires
        covers(x, a),
        covers(y, b),
    ensures
        covers(sequence(x, y), a + b),
{
    reveal(covers);
    let s = a + b;
    let tris = trigrams(s);
    assert(s.subrange(0, a.len() as int) =~= a);
    assert(s.subrange(a.len() as int, (a.len() + b.len()) as int) =~= b);
    lemma_trigrams_of_part(a, s, 0);
    lemma_trigrams_of_part(b, s, a.len() as int);
    law_admits_grows(x.query, trigrams(a), tris);
    law_admits_grows(y.query, trigrams(b), tris);
    lemma_junction(x, y, a, b);
    law_and_or_meaning(x.query, y.query, tris);
    law_and_or_meaning(both(x.query, y.query), junction(x, y), tris);
    match (x.exact, y.exact) {
        (Some(xe), Some(ye)) => {
            lemma_crossed(xe, ye, a, b);
        },
        (Some(xe), None) => {
            lemma_cross_begins(xe, y.prefix, a, b);
            lemma_ends_longer(y.suffix, a, b);
            lemma_begins_more(y.suffix, x.suffix, s);
        },
        (None, Some(ye)) => {
            lemma_cross_ends(x.suffix, ye, a, b);
            lemma_begins_longer(x.prefix, a, b);
            lemma_begins_more(x.prefix, y.prefix, s);
        },
        (None, None) => {
            lemma_begins_longer(x.prefix, a, b);
            lemma_begins_more(x.prefix, y.prefix, s);
            lemma_ends_longer(y.suffix, a, b);
            lemma_begins_more(y.suffix, x.suffix, s);
        },
    }
    let joint = match (x.exact, y.exact) {
        (Some(xe), Some(ye)) => Facts { exact: Some(crossed(xe, ye)), ..just_nothing() },
        _ => Facts {
            exact: None,
            prefix: match x.exact {
                Some(xe) => crossed(xe, y.prefix),
                None => if x.can_empty {
                    with_all(x.prefix, y.prefix)
                } else {
                    x.prefix
                },
            },
            suffix: match y.exact {
                Some(ye) => crossed(x.suffix, ye),
                None => if y.can_empty {
                    with_all(y.suffix, x.suffix)
                } else {
                    y.suffix
                },
            },
            ..just_nothing()
        },
    };
    let whole = Facts {
        can_empty: x.can_empty && y.can_empty,
        query: both(both(x.query, y.query), junction(x, y)),
        ..joint
    };
    assert(covers(whole, s));
    lemma_simplified(whole, false, s);
}

proof fn lemma_choice(x: Facts, y: Facts, s: Seq<u8>)
    requires
        covers(x, s) || covers(y, s),
    ensures
        covers(choice(x, y), s),
{
    reveal(covers);
    let tris = trigrams(s);
    let joint = match (x.exact, y.exact) {
        (Some(xe), Some(ye)) => Facts {
            exact: Some(with_all(xe, ye)),
            query: either(x.query, y.query),
            ..just_nothing()
        },
        (Some(xe), None) => Facts {
            exact: None,
            prefix: with_all(xe, y.prefix),
            suffix: with_all(xe, y.suffix),
            query: either(exact_added(x).query, y.query),
            ..just_nothing()
        },
        (None, Some(ye)) => Facts {
            exact: None,
            prefix: with_all(x.prefix, ye),
            suffix: with_all(x.suffix, ye),
            query: either(x.query, exact_added(y).query),
            ..just_nothing()
        },
        (None, None) => Facts {
            exact: None,
            prefix: with_all(x.prefix, y.prefix),
            suffix: with_all(x.suffix, y.suffix),
            query: either(x.query, y.query),
            ..just_nothing()
        },
    };
    let whole = Facts { can_empty: x.can_empty || y.can_empty, ..joint };
    if covers(x, s) {
        lemma_exact_added(x, s);
    }
    if covers(y, s) {
        lemma_exact_added(y, s);
    }
    law_and_or_meaning(x.query, y.query, tris);
    law_and_or_meaning(exact_added(x).query, y.query, tris);
    law_and_or_meaning(x.query, exact_added(y).query, tris);
    match (x.exact, y.exact) {
        (Some(xe), Some(ye)) => {
            lemma_with_all_contains(xe, ye, s);
        },
        (Some(xe), None) => {
            if covers(x, s) {
                lemma_member_begins(xe, s);
            }
            lemma_begins_more(xe, y.prefix, s);
            lemma_begins_more(xe, y.suffix, s);
        },
        (None, Some(ye)) => {
            if covers(y, s) {
                lemma_member_begins(ye, s);
            }
            lemma_begins_more(x.prefix, ye, s);
            lemma_begins_more(x.suffix, ye, s);
        },
        (None, None) => {
            lemma_begins_more(x.prefix, y.prefix, s);
            lemma_begins_more(x.suffix, y.suffix, s);
        },
    }
    assert(covers(whole, s));
    lemma_simplified(whole, false, s);
}

/// `s` begins with the match `a` and ends with the match `z`.
proof fn lemma_repeated(x: Facts, a: Seq<u8>, z: Seq<u8>, s: Seq<u8>)
    requires
        covers(x, a),
        covers(x, z),
        stands_at(a, s, 0),
        stands_at(z, s, s.len() - z.len()),
    ensures
        covers(repeated(x), s),
{
    reveal(covers);
    lemma_trigrams_of_part(a, s, 0);
    law_admits_grows(x.query, trigrams(a), trigrams(s));
    let open = match x.exact {
        Some(e) => Facts { exact: None, prefix: e, suffix: e, ..x },
        None => x,
    };
    match x.exact {
        Some(e) => {
            lemma_member_begins(e, a);
            lemma_member_begins(e, z);
        },
        None => {},
    }
    let rest = s.subrange(a.len() as int, s.len() as int);
    assert(a + rest =~= s) by {
        assert(s.subrange(0, a.len() as int) =~= a);
    }
    lemma_begins_longer(open.prefix, a, rest);
    let front = s.subrange(0, s.len() - z.len());
    assert(front + z =~= s) by {
        assert(s.subrange(s.len() - z.len(), s.len() as int) =~= z);
    }
    lemma_ends_longer(open.suffix, front, z);
    assert(covers(open, s));
    lemma_simplified(open, false, s);
}

proof fn lemma_anything(can_empty: bool, s: Seq<u8>)
    ensures
        covers(anything(can_empty), s),
{
    reveal(covers);
    let l = seq![Seq::<u8>::empty()];
    assert(l[0] == Seq::<u8>::empty());
    assert(l.contains(Seq::<u8>::empty()));
    assert(s.subrange(0, 0) =~= Seq::<u8>::empty());
    assert(s.subrange(s.len() as int, s.len() as int) =~= Seq::<u8>::empty());
    assert(stands_at(Seq::<u8>::empty(), s, 0));
    assert(stands_at(Seq::<u8>::empty(), s, s.len() - 0));
}

proof fn lemma_just_empty(s: Seq<u8>)
    requires
        s.len() == 0,
    ensures
        covers(just_empty(), s),
{
    reveal(covers);
    assert(s =~= Seq::<u8>::empty());
    assert(seq![Seq::<u8>::empty()][0] == s);
}

proof fn lemma_class_facts(count: nat, members: Seq<Seq<u8>>, s: Seq<u8>)
    requires
        count <= MAX_CLASS ==> members.contains(s),
    ensures
        covers(class_facts(count, members), s),
{
    reveal(covers);
    if count > MAX_CLASS {
        lemma_anything(false, s);
    } else {
        let set = with_all(Seq::empty(), members);
        lemma_with_all_contains(Seq::empty(), members, s);
        assert(set.contains(s));
        assert(covers(one_of(set), s));
        lemma_simplified(one_of(set), false, s);
    }
}

proof fn lemma_append_contains(a: Seq<Seq<u8>>, b: Seq<Seq<u8>>, s: Seq<u8>)
    ensures
        a.contains(s) || b.contains(s) ==> (a + b).contains(s),
{
    if a.contains(s) {
        let i = choose|i: int| 0 <= i < a.len() && a[i] == s;
        assert((a + b)[i] == s);
    }
    if b.contains(s) {
        let i = choose|i: int| 0 <= i < b.len() && b[i] == s;
        assert((a + b)[a.len() + i] == s);
    }
}

proof fn lemma_chars_between(lo: int, end: int, c: char)
    requires
        lo <= c < end,
    ensures
        chars_between(lo, end).contains(encode_utf8(seq![c])),
    decreases end - lo,
{
    let s = encode_utf8(seq![c]);
    if c as int == end - 1 {
        vstd::utf8::char_is_scalar(c);
        assert(is_code(end - 1));
        let l = chars_between(lo, end);
        assert(l[l.len() - 1] == s);
    } else {
        lemma_chars_between(lo, end - 1, c);
        let l = chars_between(lo, end - 1);
        let i = choose|i: int| 0 <= i < l.len() && l[i] == s;
        assert(chars_between(lo, end)[i] == s);
    }
}

proof fn lemma_class_chars(ranges: Seq<(char, char)>, c: char)
    requires
        has_char(ranges, c),
    ensures
        class_chars(ranges).contains(encode_utf8(seq![c])),
    decreases ranges.len(),
{
    let i = choose|i: int| 0 <= i < ranges.len() && (#[trigger] ranges[i]).0 <= c <= ranges[i].1;
    let s = encode_utf8(seq![c]);
    let rest = ranges.drop_last();
    let last = chars_between(ranges.last().0 as int, ranges.last().1 as int + 1);
    if i < ranges.len() - 1 {
        assert(rest[i].0 <= c <= rest[i].1);
        lemma_class_chars(rest, c);
    } else {
        lemma_chars_between(ranges.last().0 as int, ranges.last().1 as int + 1, c);
    }
    lemma_append_contains(class_chars(rest), last, s);
}

proof fn lemma_class_bytes(ranges: Seq<(u8, u8)>, s: Seq<u8>)
    requires
        s.len() == 1,
        has_byte(ranges, s[0]),
    ensures
        class_bytes(ranges).contains(s),
    decreases ranges.len(),
{
    let b = s[0];
    let i = choose|i: int| 0 <= i < ranges.len() && (#[trigger] ranges[i]).0 <= b <= ranges[i].1;
    let rest = ranges.drop_last();
    let lo = ranges.last().0 as int;
    let last = bytes_between(lo, ranges.last().1 as int + 1);
    if i < ranges.len() - 1 {
        assert(rest[i].0 <= b <= rest[i].1);
        lemma_class_bytes(rest, s);
    } else {
        assert(last[b - lo] =~= s);
    }
    lemma_append_contains(class_bytes(rest), last, s);
}

/// The first of one or more matches one after the other.
proof fn lemma_first(t: Tree, n: nat, s: Seq<u8>) -> (k: int)
    requires
        n >= 1,
        accepts_times(t, n, s),
    ensures
        0 <= k <= s.len(),
        accepts(t, s.take(k)),
    decreases n,
{
    let k = choose|k: int|
        0 <= k <= s.len() && accepts_times(t, (n - 1) as nat, #[trigger] s.take(k)) && accepts(
            t,
            s.skip(k),
        );
    if n == 1 {
        assert(s.take(k) =~= Seq::<u8>::empty());
        assert(s.skip(k) =~= s);
        assert(s.take(s.len() as int) =~= s);
        s.len() as int
    } else {
        let j = lemma_first(t, (n - 1) as nat, s.take(k));
        assert(s.take(k).take(j) =~= s.take(j));
        j
    }
}

/// What the planner knows of a tree holds of every match.
pub proof fn lemma_analyzed(t: Tree, s: Seq<u8>)
    requires
        accepts(t, s),
    ensures
        covers(analyzed(t), s),
    decreases t, 0nat,
{
    match t {
        Tree::Empty => {
            lemma_just_empty(s);
        },
        Tree::Literal(b) => {
            if b.len() == 0 {
                lemma_just_empty(s);
            } else {
                assert(seq![b][0] == s);
                assert(covers(one_of(seq![b]), s)) by {
                    reveal(covers);
                }
                lemma_simplified(one_of(seq![b]), false, s);
            }
        },
        Tree::Unicode(ranges) => {
            let c = choose|c: char| #[trigger] has_char(ranges, c) && s == encode_utf8(seq![c]);
            lemma_class_chars(ranges, c);
            lemma_class_facts(char_count(ranges), class_chars(ranges), s);
        },
        Tree::Bytes(ranges) => {
            lemma_class_bytes(ranges, s);
            lemma_class_facts(byte_count(ranges), class_bytes(ranges), s);
        },
        Tree::Look => {
            lemma_just_empty(s);
        },
        Tree::Capture(sub) => {
            lemma_analyzed(*sub, s);
        },
        Tree::Repeat { min, max, sub } => {
            lemma_analyzed_repeat(min, max, *sub, s);
        },
        Tree::Concat(subs) => {
            lemma_analyzed_sequence(subs, s);
        },
        Tree::Alternate(subs) => {
            lemma_analyzed_choice(subs, s);
        },
    }
}

/// The number of copies that a match of a repetition is made of.
proof fn lemma_copies(min: nat, max: Option<nat>, sub: Tree, s: Seq<u8>) -> (n: nat)
    requires
        accepts(Tree::Repeat { min, max, sub: Box::new(sub) }, s),
    ensures
        allowed(min, max, n),
        accepts_times(sub, n, s),
{
    choose|n: nat| #[trigger] allowed(min, max, n) && accepts_times(sub, n, s)
}

proof fn lemma_analyzed_repeat(min: nat, max: Option<nat>, sub: Tree, s: Seq<u8>)
    requires
        accepts(Tree::Repeat { min, max, sub: Box::new(sub) }, s),
    ensures
        covers(analyzed(Tree::Repeat { min, max, sub: Box::new(sub) }), s),
    decreases sub, 1nat,
{
    let n = lemma_copies(min, max, sub, s);
    if min == 0 {
        if max == Some(1nat) {
            if n == 0 {
                lemma_just_empty(s);
            } else {
                lemma_only(sub, s);
                lemma_analyzed(sub, s);
            }
            lemma_choice(analyzed(sub), just_empty(), s);
        } else {
            lemma_anything(true, s);
        }
    } else {
        let k = lemma_first(sub, n, s);
        let a = s.take(k);
        lemma_analyzed(sub, a);
        let j = choose|j: int|
            0 <= j <= s.len() && accepts_times(sub, (n - 1) as nat, #[trigger] s.take(j))
                && accepts(sub, s.skip(j));
        let z = s.skip(j);
        lemma_analyzed(sub, z);
        assert(s.subrange(0, a.len() as int) =~= a);
        assert(s.subrange(s.len() - z.len(), s.len() as int) =~= z);
        lemma_repeated(analyzed(sub), a, z, s);
    }
}

proof fn lemma_only(t: Tree, s: Seq<u8>)
    requires
        accepts_times(t, 1, s),
    ensures
        accepts(t, s),
{
    reveal_with_fuel(accepts_times, 2);
    let k = choose|k: int|
        0 <= k <= s.len() && accepts_times(t, 0, #[trigger] s.take(k)) && accepts(t, s.skip(k));
    assert(s.skip(k) =~= s);
}

/// Where the last part of a match of a sequence begins.
proof fn lemma_split(subs: Seq<Tree>, s: Seq<u8>) -> (k: int)
    requires
        accepts_all(subs, s),
        subs.len() > 0,
    ensures
        0 <= k <= s.len(),
        accepts_all(subs.drop_last(), s.take(k)),
        accepts(subs.last(), s.skip(k)),
        subs.len() == 1 ==> s.skip(k) == s,
        s.take(k) + s.skip(k) == s,
{
    let k = choose|k: int|
        0 <= k <= s.len() && accepts_all(subs.drop_last(), #[trigger] s.take(k)) && accepts(
            subs.last(),
            s.skip(k),
        );
    if subs.len() == 1 {
        assert(s.take(k).len() == 0);
        assert(s.skip(k) =~= s);
    }
    assert(s.take(k) + s.skip(k) =~= s);
    k
}

proof fn lemma_analyzed_sequence(subs: Seq<Tree>, s: Seq<u8>)
    requires
        accepts_all(subs, s),
    ensures
        covers(analyzed_sequence(subs), s),
    decreases subs, 0nat,
{
    if subs.len() == 0 {
        lemma_just_empty(s);
    } else {
        let k = lemma_split(subs, s);
        assert(decreases_to!(subs => subs[subs.len() - 1]));
        let (front, last) = (s.take(k), s.skip(k));
        lemma_analyzed(subs.last(), last);
        if subs.len() > 1 {
            lemma_analyzed_sequence(subs.drop_last(), front);
            lemma_sequence(
                analyzed_sequence(subs.drop_last()),
                analyzed(subs.last()),
                front,
                last,
            );
        }
    }
}

proof fn lemma_analyzed_choice(subs: Seq<Tree>, s: Seq<u8>)
    requires
        accepts_some(subs, s),
    ensures
        covers(analyzed_choice(subs), s),
    decreases subs, 0nat,
{
    if subs.len() > 0 {
        assert(decreases_to!(subs => subs[subs.len() - 1]));
        if accepts(subs.last(), s) {
            lemma_analyzed(subs.last(), s);
        } else {
            assert(accepts_some(subs.drop_last(), s));
            lemma_analyzed_choice(subs.drop_last(), s);
        }
        if subs.len() > 1 {
            lemma_choice(analyzed_choice(subs.drop_last()), analyzed(subs.last()), s);
        }
    }
}

/// A text that holds a match of a pattern is admitted by the pattern's query.
pub proof fn law_plan_admits_every_match(t: Tree, text: Seq<u8>, start: int, end: int)
    requires
        0 <= start <= end <= text.len(),
        accepts(t, text.subrange(start, end)),
    ensures
        admits(planned(t), trigrams(text)),
{
    let s = text.subrange(start, end);
    lemma_analyzed(t, s);
    lemma_simplified(analyzed(t), true, s);
    lemma_exact_added(simplified(analyzed(t), true), s);
    reveal(covers);
    assert(stands_at(s, text, start));
    lemma_trigrams_of_part(s, text, start);
    law_admits_grows(planned(t), trigrams(s), trigrams(text));
}

/// A pattern that matches some string is never planned to admit nothing.
pub proof fn law_plan_never_nothing(t: Tree, s: Seq<u8>)
    requires
        accepts(t, s),
    ensures
        planned(t) !is Nothing,
{
    assert(s.subrange(0, s.len() as int) =~= s);
    law_plan_admits_every_match(t, s, 0, s.len() as int);
}

} // verus!
