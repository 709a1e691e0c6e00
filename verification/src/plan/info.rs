//! What the planner knows of a pattern.
//!
//! For every regex node we track:
//! - `can_empty`: can it match the empty string?
//! - `exact`: the *complete* set of strings it can match (when small enough)
//! - `prefix` / `suffix`: sets of possible match prefixes/suffixes otherwise
//! - `query`: trigrams that any match *must* contain (the index constraint)

use crate::plan::strings::{copy_bytes, with_all, StrSet};
use crate::plan::{both, either, Formula, Query};
use crate::syntax::{trees, Node, Tree};
use crate::text::{code_of, is_code};
use crate::trigram::{of_str, windows};
use vstd::prelude::*;
use vstd::slice::slice_subrange;
use vstd::utf8::encode_utf8;

verus! {

/// Exact sets bigger than this become prefixes and suffixes. A class that is
/// enumerated fits.
pub const MAX_EXACT: usize = 10;

/// Sets of prefixes or suffixes bigger than this are shortened.
pub const MAX_SET: usize = 20;

/// Char classes bigger than this stop being enumerated and become "any char".
pub const MAX_CLASS: usize = 10;

/// The mathematical form of `Info`.
pub struct Facts {
    pub can_empty: bool,
    pub exact: Option<Seq<Seq<u8>>>,
    pub prefix: Seq<Seq<u8>>,
    pub suffix: Seq<Seq<u8>>,
    pub query: Formula,
}

/// The length of a shortest string, 0 for none.
pub open spec fn shortest(l: Seq<Seq<u8>>) -> nat
    decreases l.len(),
{
    if l.len() == 0 {
        0
    } else if l.len() == 1 || l.last().len() < shortest(l.drop_last()) {
        l.last().len()
    } else {
        shortest(l.drop_last())
    }
}

/// `x` followed by each string of `b`.
pub open spec fn extended(x: Seq<u8>, b: Seq<Seq<u8>>) -> Seq<Seq<u8>> {
    Seq::new(b.len(), |i: int| x + b[i])
}

/// Each string of `a` followed by each of `b`.
pub open spec fn pairs(a: Seq<Seq<u8>>, b: Seq<Seq<u8>>) -> Seq<Seq<u8>>
    decreases a.len(),
{
    if a.len() == 0 {
        Seq::empty()
    } else {
        pairs(a.drop_last(), b) + extended(a.last(), b)
    }
}

pub open spec fn crossed(a: Seq<Seq<u8>>, b: Seq<Seq<u8>>) -> Seq<Seq<u8>> {
    with_all(Seq::empty(), pairs(a, b))
}

/// The AND of some trigrams.
pub open spec fn all_of(ts: Seq<u32>) -> Formula
    decreases ts.len(),
{
    if ts.len() == 0 {
        Formula::All
    } else {
        both(all_of(ts.drop_last()), Formula::Tri(ts.last()))
    }
}

/// The OR over strings, each contributing the AND of its trigrams.
pub open spec fn any_of(l: Seq<Seq<u8>>) -> Formula
    decreases l.len(),
{
    if l.len() == 0 {
        Formula::Nothing
    } else {
        either(any_of(l.drop_last()), all_of(windows(l.last())))
    }
}

/// What it takes to hold a string of the set. If any string is shorter than
/// 3 bytes it guarantees nothing -> All.
pub open spec fn needs_one_of(l: Seq<Seq<u8>>) -> Formula {
    if l.len() == 0 {
        Formula::Nothing
    } else if shortest(l) < 3 {
        Formula::All
    } else {
        any_of(l)
    }
}

pub open spec fn just_empty() -> Facts {
    Facts {
        can_empty: true,
        exact: Some(seq![Seq::empty()]),
        prefix: Seq::empty(),
        suffix: Seq::empty(),
        query: Formula::All,
    }
}

pub open spec fn just_nothing() -> Facts {
    Facts {
        can_empty: false,
        exact: Some(Seq::empty()),
        prefix: Seq::empty(),
        suffix: Seq::empty(),
        query: Formula::Nothing,
    }
}

/// Anything at all, the empty string too if `can_empty`.
pub open spec fn anything(can_empty: bool) -> Facts {
    Facts {
        can_empty,
        exact: None,
        prefix: seq![Seq::empty()],
        suffix: seq![Seq::empty()],
        query: Formula::All,
    }
}

pub open spec fn one_of(l: Seq<Seq<u8>>) -> Facts {
    Facts {
        can_empty: false,
        exact: Some(l),
        prefix: Seq::empty(),
        suffix: Seq::empty(),
        query: Formula::All,
    }
}

/// The first two bytes of a string of three or more.
pub open spec fn head_of(s: Seq<u8>) -> Seq<u8> {
    if s.len() < 3 {
        s
    } else {
        s.take(2)
    }
}

/// The last two bytes of a string of three or more.
pub open spec fn tail_of(s: Seq<u8>) -> Seq<u8> {
    if s.len() < 3 {
        s
    } else {
        s.skip(s.len() - 2)
    }
}

pub open spec fn heads(l: Seq<Seq<u8>>) -> Seq<Seq<u8>> {
    Seq::new(l.len(), |i: int| head_of(l[i]))
}

pub open spec fn tails(l: Seq<Seq<u8>>) -> Seq<Seq<u8>> {
    Seq::new(l.len(), |i: int| tail_of(l[i]))
}

/// `s` cut to less than `n` bytes.
pub open spec fn cut(s: Seq<u8>, n: nat, is_suffix: bool) -> Seq<u8> {
    if s.len() < n {
        s
    } else if is_suffix {
        s.skip(s.len() - (n - 1))
    } else {
        s.take(n - 1)
    }
}

pub open spec fn cuts(l: Seq<Seq<u8>>, n: nat, is_suffix: bool) -> Seq<Seq<u8>> {
    Seq::new(l.len(), |i: int| cut(l[i], n, is_suffix))
}

/// The set with its strings cut to less than `n` bytes, and to fewer until
/// there are at most `MAX_SET`.
pub open spec fn shortened(l: Seq<Seq<u8>>, n: nat, is_suffix: bool) -> Seq<Seq<u8>>
    decreases n,
{
    let next = with_all(Seq::empty(), cuts(l, n, is_suffix));
    if next.len() <= MAX_SET || n <= 1 {
        next
    } else {
        shortened(next, (n - 1) as nat, is_suffix)
    }
}

/// Fold the exact set's trigrams into the query.
pub open spec fn exact_added(f: Facts) -> Facts {
    match f.exact {
        Some(e) => Facts { query: both(f.query, needs_one_of(e)), ..f },
        None => f,
    }
}

/// Capture the trigram information of a prefix or suffix set, then shorten it.
pub open spec fn set_simplified(f: Facts, is_suffix: bool) -> Facts {
    if is_suffix {
        Facts {
            query: both(f.query, needs_one_of(f.suffix)),
            suffix: shortened(f.suffix, 3, true),
            ..f
        }
    } else {
        Facts {
            query: both(f.query, needs_one_of(f.prefix)),
            prefix: shortened(f.prefix, 3, false),
            ..f
        }
    }
}

/// Whether an exact set is to be given up.
pub open spec fn overgrown(e: Seq<Seq<u8>>, force: bool) -> bool {
    e.len() > 0 && (e.len() > MAX_EXACT || (shortest(e) >= 3 && force) || shortest(e) >= 4)
}

/// The facts without the exact set.
pub open spec fn exact_dropped(f: Facts) -> Facts {
    match f.exact {
        Some(e) => Facts {
            exact: None,
            prefix: with_all(f.prefix, heads(e)),
            suffix: with_all(f.suffix, tails(e)),
            ..exact_added(f)
        },
        None => f,
    }
}

pub open spec fn simplified(f: Facts, force: bool) -> Facts {
    let g = match f.exact {
        Some(e) => if overgrown(e, force) {
            exact_dropped(f)
        } else {
            f
        },
        None => f,
    };
    if g.exact is None {
        set_simplified(set_simplified(g, false), true)
    } else {
        g
    }
}

/// What the junction of two inexact parts needs.
pub open spec fn junction(x: Facts, y: Facts) -> Formula {
    if x.exact is None && y.exact is None && x.suffix.len() <= MAX_SET && y.prefix.len() <= MAX_SET
        && shortest(x.suffix) + shortest(y.prefix) >= 3 {
        needs_one_of(crossed(x.suffix, y.prefix))
    } else {
        Formula::All
    }
}

pub open spec fn sequence(x: Facts, y: Facts) -> Facts {
    let joint = match (x.exact, y.exact) {
        (Some(xe), Some(ye)) => Facts { exact: Some(crossed(xe, ye)), ..just_nothing() },
        _ => Facts {
            exact: None,
            prefix: match x.exact {
                Some(xe) => crossed(xe, y.prefix),
                None => if x.can_empty {
                    with_all(x.prefix, y.prefix)
                } else {
                    x.prefix
                },
            },
            suffix: match y.exact {
                Some(ye) => crossed(x.suffix, ye),
                None => if y.can_empty {
                    with_all(y.suffix, x.suffix)
                } else {
                    y.suffix
                },
            },
            ..just_nothing()
        },
    };
    simplified(
        Facts {
            can_empty: x.can_empty && y.can_empty,
            query: both(both(x.query, y.query), junction(x, y)),
            ..joint
        },
        false,
    )
}

pub open spec fn choice(x: Facts, y: Facts) -> Facts {
    let joint = match (x.exact, y.exact) {
        (Some(xe), Some(ye)) => Facts {
            exact: Some(with_all(xe, ye)),
            query: either(x.query, y.query),
            ..just_nothing()
        },
        (Some(xe), None) => Facts {
            exact: None,
            prefix: with_all(xe, y.prefix),
            suffix: with_all(xe, y.suffix),
            query: either(exact_added(x).query, y.query),
            ..just_nothing()
        },
        (None, Some(ye)) => Facts {
            exact: None,
            prefix: with_all(x.prefix, ye),
            suffix: with_all(x.suffix, ye),
            query: either(x.query, exact_added(y).query),
            ..just_nothing()
        },
        (None, None) => Facts {
            exact: None,
            prefix: with_all(x.prefix, y.prefix),
            suffix: with_all(x.suffix, y.suffix),
            query: either(x.query, y.query),
            ..just_nothing()
        },
    };
    simplified(Facts { can_empty: x.can_empty || y.can_empty, ..joint }, false)
}

/// One or more copies.
pub open spec fn repeated(x: Facts) -> Facts {
    let open = match x.exact {
        Some(e) => Facts { exact: None, prefix: e, suffix: e, ..x },
        None => x,
    };
    simplified(open, false)
}

/// The number of values from `lo` to `hi`.
pub open spec fn span_size(lo: int, hi: int) -> nat {
    if lo <= hi {
        (hi - lo + 1) as nat
    } else {
        0
    }
}

pub open spec fn char_count(ranges: Seq<(char, char)>) -> nat
    decreases ranges.len(),
{
    if ranges.len() == 0 {
        0
    } else {
        char_count(ranges.drop_last()) + span_size(ranges.last().0 as int, ranges.last().1 as int)
    }
}

pub open spec fn byte_count(ranges: Seq<(u8, u8)>) -> nat
    decreases ranges.len(),
{
    if ranges.len() == 0 {
        0
    } else {
        byte_count(ranges.drop_last()) + span_size(ranges.last().0 as int, ranges.last().1 as int)
    }
}

/// The characters from `lo` up to and without `end`, in UTF-8.
pub open spec fn chars_between(lo: int, end: int) -> Seq<Seq<u8>>
    decreases end - lo,
{
    if end <= lo {
        Seq::empty()
    } else if is_code(end - 1) {
        chars_between(lo, end - 1).push(encode_utf8(seq![(end - 1) as char]))
    } else {
        chars_between(lo, end - 1)
    }
}

pub open spec fn class_chars(ranges: Seq<(char, char)>) -> Seq<Seq<u8>>
    decreases ranges.len(),
{
    if ranges.len() == 0 {
        Seq::empty()
    } else {
        class_chars(ranges.drop_last()) + chars_between(
            ranges.last().0 as int,
            ranges.last().1 as int + 1,
        )
    }
}

/// The bytes from `lo` up to and without `end`.
pub open spec fn bytes_between(lo: int, end: int) -> Seq<Seq<u8>> {
    Seq::new(
        if lo < end {
            (end - lo) as nat
        } else {
            0
        },
        |i: int| seq![(lo + i) as u8],
    )
}

pub open spec fn class_bytes(ranges: Seq<(u8, u8)>) -> Seq<Seq<u8>>
    decreases ranges.len(),
{
    if ranges.len() == 0 {
        Seq::empty()
    } else {
        class_bytes(ranges.drop_last()) + bytes_between(
            ranges.last().0 as int,
            ranges.last().1 as int + 1,
        )
    }
}

/// A class of `count` members that lists as `members`.
pub open spec fn class_facts(count: nat, members: Seq<Seq<u8>>) -> Facts {
    let set = with_all(Seq::empty(), members);
    if count > MAX_CLASS {
        anything(false)
    } else if set.len() == 0 {
        just_nothing()
    } else {
        simplified(one_of(set), false)
    }
}

/// What the planner knows of a tree.
pub open spec fn analyzed(t: Tree) -> Facts
    decreases t,
{
    match t {
        Tree::Empty => just_empty(),
        Tree::Literal(b) => if b.len() == 0 {
            just_empty()
        } else {
            simplified(one_of(seq![b]), false)
        },
        Tree::Unicode(ranges) => class_facts(char_count(ranges), class_chars(ranges)),
        Tree::Bytes(ranges) => class_facts(byte_count(ranges), class_bytes(ranges)),
        Tree::Look => just_empty(),
        Tree::Capture(sub) => analyzed(*sub),
        Tree::Repeat { min, max, sub } => if min == 0 {
            if max == Some(1nat) {
                // x? = x | ""
                choice(analyzed(*sub), just_empty())
            } else {
                // x* (or x{0,n}): zero copies allowed, nothing guaranteed.
                anything(true)
            }
        } else {
            // x+ / x{n,}: at least one copy, so x's trigrams must appear,
            // but matches are no longer exact strings.
            repeated(analyzed(*sub))
        },
        Tree::Concat(subs) => analyzed_sequence(subs),
        Tree::Alternate(subs) => analyzed_choice(subs),
    }
}

pub open spec fn analyzed_sequence(subs: Seq<Tree>) -> Facts
    decreases subs,
{
    if subs.len() == 0 {
        just_empty()
    } else if subs.len() == 1 {
        analyzed(subs[0])
    } else {
        sequence(analyzed_sequence(subs.drop_last()), analyzed(subs.last()))
    }
}

pub open spec fn analyzed_choice(subs: Seq<Tree>) -> Facts
    decreases subs,
{
    if subs.len() == 0 {
        just_nothing()
    } else if subs.len() == 1 {
        analyzed(subs[0])
    } else {
        choice(analyzed_choice(subs.drop_last()), analyzed(subs.last()))
    }
}

/// The query for a pattern with the given tree.
pub open spec fn planned(t: Tree) -> Formula {
    exact_added(simplified(analyzed(t), true)).query
}

/// What the planner knows of a pattern.
pub struct Info {
    pub can_empty: bool,
    pub exact: Option<StrSet>,
    pub prefix: StrSet,
    pub suffix: StrSet,
    pub query: Query,
}

/// The contents of an optional set.
pub open spec fn contents(set: Option<StrSet>) -> Option<Seq<Seq<u8>>> {
    match set {
        Some(s) => Some(s@),
        None => None,
    }
}

impl View for Info {
    type V = Facts;

    open spec fn view(&self) -> Facts {
        Facts {
            can_empty: self.can_empty,
            exact: contents(self.exact),
            prefix: self.prefix@,
            suffix: self.suffix@,
            query: self.query.formula(),
        }
    }
}

fn set_of(item: Vec<u8>) -> (r: StrSet)
    ensures
        r@ == seq![item@],
{
    let mut r = StrSet::new();
    r.insert(item);
    r
}

fn min_len(s: &StrSet) -> (r: usize)
    ensures
        r == shortest(s@),
{
    let mut r: usize = 0;
    for i in 0..s.items.len()
        invariant
            r == shortest(s@.take(i as int)),
    {
        let n: usize = s.items[i].len();
        assert(s@.take(i as int + 1).drop_last() =~= s@.take(i as int));
        assert(s@[i as int].len() == n);
        if i == 0 || n < r {
            r = n;
        }
    }
    assert(s@.take(s@.len() as int) =~= s@);
    r
}

fn cross(a: &StrSet, b: &StrSet) -> (out: StrSet)
    ensures
        out@ == crossed(a@, b@),
{
    let mut out = StrSet::new();
    assert(a@.take(0) =~= Seq::<Seq<u8>>::empty());
    for i in 0..a.items.len()
        invariant
            out@ == with_all(Seq::empty(), pairs(a@.take(i as int), b@)),
    {
        let ghost done = pairs(a@.take(i as int), b@);
        let ghost x = a@[i as int];
        let ghost more = extended(x, b@);
        assert(done + more.take(0) =~= done);
        for j in 0..b.items.len()
            invariant
                i < a.items@.len(),
                x == a.items@[i as int]@,
                more == extended(x, b@),
                out@ == with_all(Seq::empty(), done + more.take(j as int)),
        {
            let mut s = copy_bytes(&a.items[i]);
            let y = &b.items[j];
            let mut k: usize = 0;
            while k < y.len()
                invariant
                    k <= y@.len(),
                    s@ == x + y@.take(k as int),
                decreases y@.len() - k,
            {
                s.push(y[k]);
                assert(y@.take(k as int).push(y@[k as int]) =~= y@.take(k as int + 1));
                k += 1;
            }
            assert(y@.take(y@.len() as int) =~= y@);
            assert(s@ == more[j as int]);
            assert((done + more.take(j as int + 1)).drop_last() =~= done + more.take(j as int));
            out.insert(s);
        }
        assert(more.take(b@.len() as int) =~= more);
        assert(a@.take(i as int + 1).drop_last() =~= a@.take(i as int));
    }
    assert(a@.take(a@.len() as int) =~= a@);
    out
}

fn union(a: &StrSet, b: &StrSet) -> (out: StrSet)
    ensures
        out@ == with_all(a@, b@),
{
    let mut out = a.copy();
    assert(b@.take(0) =~= Seq::<Seq<u8>>::empty());
    for i in 0..b.items.len()
        invariant
            out@ == with_all(a@, b@.take(i as int)),
    {
        assert(b@.take(i as int + 1).drop_last() =~= b@.take(i as int));
        assert(b@[i as int] == b.items@[i as int]@);
        out.insert(copy_bytes(&b.items[i]));
    }
    assert(b@.take(b@.len() as int) =~= b@);
    out
}

/// OR over the strings of `set`, each contributing the AND of its trigrams.
/// If any string is shorter than 3 bytes it guarantees nothing -> All.
fn or_trigrams(set: &StrSet) -> (q: Query)
    ensures
        q.formula() == needs_one_of(set@),
{
    if set.items.len() == 0 {
        return Query::Nothing;
    }
    if min_len(set) < 3 {
        return Query::All;
    }
    let mut q = Query::Nothing;
    assert(set@.take(0) =~= Seq::<Seq<u8>>::empty());
    for i in 0..set.items.len()
        invariant
            q.formula() == any_of(set@.take(i as int)),
    {
        let tris = of_str(&set.items[i]);
        let mut conj = Query::All;
        assert(tris@.take(0) =~= Seq::<u32>::empty());
        for j in 0..tris.len()
            invariant
                conj.formula() == all_of(tris@.take(j as int)),
        {
            assert(tris@.take(j as int + 1).drop_last() =~= tris@.take(j as int));
            conj = conj.and(Query::Tri(tris[j]));
        }
        assert(tris@.take(tris@.len() as int) =~= tris@);
        assert(set@.take(i as int + 1).drop_last() =~= set@.take(i as int));
        assert(set@[i as int] == set.items@[i as int]@);
        q = q.or(conj);
    }
    assert(set@.take(set@.len() as int) =~= set@);
    q
}

fn empty_string() -> (r: Info)
    ensures
        r@ == just_empty(),
{
    let r = Info {
        can_empty: true,
        exact: Some(set_of(Vec::new())),
        prefix: StrSet::new(),
        suffix: StrSet::new(),
        query: Query::All,
    };
    assert(r@.exact->Some_0 =~= seq![Seq::<u8>::empty()]);
    r
}

fn no_match() -> (r: Info)
    ensures
        r@ == just_nothing(),
{
    Info {
        can_empty: false,
        exact: Some(StrSet::new()),
        prefix: StrSet::new(),
        suffix: StrSet::new(),
        query: Query::Nothing,
    }
}

fn any_char() -> (r: Info)
    ensures
        r@ == anything(false),
{
    let r = Info {
        can_empty: false,
        exact: None,
        prefix: set_of(Vec::new()),
        suffix: set_of(Vec::new()),
        query: Query::All,
    };
    assert(r@.prefix =~= seq![Seq::<u8>::empty()]);
    assert(r@.suffix =~= seq![Seq::<u8>::empty()]);
    r
}

fn any_match() -> (r: Info)
    ensures
        r@ == anything(true),
{
    let mut r = any_char();
    r.can_empty = true;
    r
}

fn literal(bytes: &Vec<u8>) -> (r: Info)
    ensures
        r@ == analyzed(Tree::Literal(bytes@)),
{
    if bytes.len() == 0 {
        return empty_string();
    }
    let mut info = Info {
        can_empty: false,
        exact: Some(set_of(copy_bytes(bytes))),
        prefix: StrSet::new(),
        suffix: StrSet::new(),
        query: Query::All,
    };
    assert(info@ == one_of(seq![bytes@]));
    info.simplify(false);
    info
}

fn shorten(set: &StrSet, n: usize, is_suffix: bool) -> (r: StrSet)
    requires
        1 <= n,
    ensures
        r@ == shortened(set@, n as nat, is_suffix),
    decreases n,
{
    let ghost all = cuts(set@, n as nat, is_suffix);
    let mut next = StrSet::new();
    assert(all.take(0) =~= Seq::<Seq<u8>>::empty());
    for i in 0..set.items.len()
        invariant
            1 <= n,
            all == cuts(set@, n as nat, is_suffix),
            next@ == with_all(Seq::empty(), all.take(i as int)),
    {
        let s = &set.items[i];
        assert(s@ == set@[i as int]);
        assert(all.take(i as int + 1).drop_last() =~= all.take(i as int));
        if s.len() >= n {
            if is_suffix {
                let from: usize = s.len() - (n - 1);
                next.insert(copy_bytes(slice_subrange(s.as_slice(), from, s.len())));
                assert(s@.subrange(from as int, s@.len() as int) =~= all[i as int]);
            } else {
                next.insert(copy_bytes(slice_subrange(s.as_slice(), 0, n - 1)));
                assert(s@.subrange(0, n - 1) =~= all[i as int]);
            }
        } else {
            next.insert(copy_bytes(s));
        }
    }
    assert(all.take(set@.len() as int) =~= all);
    if next.items.len() <= MAX_SET || n <= 1 {
        next
    } else {
        shorten(&next, n - 1, is_suffix)
    }
}

/// Swaps the query for `All` and gives it out.
fn take_query(q: &mut Query) -> (r: Query)
    ensures
        r == *old(q),
{
    let mut r = Query::All;
    std::mem::swap(q, &mut r);
    r
}

impl Info {
    /// Fold the exact set's trigrams into the query.
    fn add_exact(&mut self)
        ensures
            final(self)@ == exact_added(old(self)@),
    {
        match &self.exact {
            Some(exact) => {
                let more = or_trigrams(exact);
                self.query = take_query(&mut self.query).and(more);
            },
            None => {},
        }
    }

    /// Gives up the exact set.
    fn drop_exact(&mut self)
        ensures
            final(self)@ == exact_dropped(old(self)@),
    {
        self.add_exact();
        let mut exact: Option<StrSet> = None;
        std::mem::swap(&mut self.exact, &mut exact);
        let ghost start = self@;
        match exact {
            Some(e) => {
                let ghost hs = heads(e@);
                let ghost ts = tails(e@);
                assert(hs.take(0) =~= Seq::<Seq<u8>>::empty());
                assert(ts.take(0) =~= Seq::<Seq<u8>>::empty());
                for i in 0..e.items.len()
                    invariant
                        hs == heads(e@),
                        ts == tails(e@),
                        self.exact is None,
                        self.can_empty == start.can_empty,
                        self.query.formula() == start.query,
                        self.prefix@ == with_all(start.prefix, hs.take(i as int)),
                        self.suffix@ == with_all(start.suffix, ts.take(i as int)),
                {
                    let s = &e.items[i];
                    let n: usize = s.len();
                    assert(s@ == e@[i as int]);
                    assert(hs.take(i as int + 1).drop_last() =~= hs.take(i as int));
                    assert(ts.take(i as int + 1).drop_last() =~= ts.take(i as int));
                    if n < 3 {
                        self.prefix.insert(copy_bytes(s));
                        self.suffix.insert(copy_bytes(s));
                    } else {
                        self.prefix.insert(copy_bytes(slice_subrange(s.as_slice(), 0, 2)));
                        self.suffix.insert(copy_bytes(slice_subrange(s.as_slice(), n - 2, n)));
                        assert(s@.subrange(0, 2) =~= hs[i as int]);
                        assert(s@.subrange(n - 2, n as int) =~= ts[i as int]);
                    }
                }
                assert(hs.take(e@.len() as int) =~= hs);
                assert(ts.take(e@.len() as int) =~= ts);
            },
            None => {},
        }
    }

    fn simplify(&mut self, force: bool)
        ensures
            final(self)@ == simplified(old(self)@, force),
    {
        let give_up = match &self.exact {
            Some(exact) => {
                let ml: usize = min_len(exact);
                exact.items.len() != 0 && (exact.items.len() > MAX_EXACT || (ml >= 3 && force)
                    || ml >= 4)
            },
            None => false,
        };
        if give_up {
            self.drop_exact();
        }
        if self.exact.is_none() {
            self.simplify_set(false);
            self.simplify_set(true);
        }
    }

    /// Capture the trigram information of prefix/suffix, then shorten the
    /// set so later compositions stay bounded.
    fn simplify_set(&mut self, is_suffix: bool)
        ensures
            final(self)@ == set_simplified(old(self)@, is_suffix),
    {
        if is_suffix {
            let more = or_trigrams(&self.suffix);
            self.query = take_query(&mut self.query).and(more);
            self.suffix = shorten(&self.suffix, 3, true);
        } else {
            let more = or_trigrams(&self.prefix);
            self.query = take_query(&mut self.query).and(more);
            self.prefix = shorten(&self.prefix, 3, false);
        }
    }
}

fn concat(x: Info, y: Info) -> (r: Info)
    ensures
        r@ == sequence(x@, y@),
{
    let mut out = no_match();
    match (&x.exact, &y.exact) {
        (Some(xe), Some(ye)) => {
            out.exact = Some(cross(xe, ye));
        },
        _ => {
            out.exact = None;
            out.prefix = match &x.exact {
                Some(xe) => cross(xe, &y.prefix),
                None => if x.can_empty {
                    union(&x.prefix, &y.prefix)
                } else {
                    x.prefix.copy()
                },
            };
            out.suffix = match &y.exact {
                Some(ye) => cross(&x.suffix, ye),
                None => if y.can_empty {
                    union(&y.suffix, &x.suffix)
                } else {
                    y.suffix.copy()
                },
            };
        },
    }
    // When neither side is exact, matches straddle the boundary: the strings
    // in x.suffix x y.prefix are guaranteed substrings of any match, and
    // their trigrams are not yet accounted for in x.query / y.query.
    let mut boundary = Query::All;
    if x.exact.is_none() && y.exact.is_none() && x.suffix.items.len() <= MAX_SET
        && y.prefix.items.len() <= MAX_SET {
        let a: usize = min_len(&x.suffix);
        let b: usize = min_len(&y.prefix);
        if a >= 3 || b >= 3 || a + b >= 3 {
            boundary = or_trigrams(&cross(&x.suffix, &y.prefix));
        }
    }
    out.can_empty = x.can_empty && y.can_empty;
    out.query = x.query.and(y.query).and(boundary);
    out.simplify(false);
    out
}

fn alternate(x: Info, y: Info) -> (r: Info)
    ensures
        r@ == choice(x@, y@),
{
    let mut x = x;
    let mut y = y;
    let mut out = no_match();
    match (&x.exact, &y.exact) {
        (Some(xe), Some(ye)) => {
            out.exact = Some(union(xe, ye));
        },
        (Some(xe), None) => {
            out.exact = None;
            out.prefix = union(xe, &y.prefix);
            out.suffix = union(xe, &y.suffix);
        },
        (None, Some(ye)) => {
            out.exact = None;
            out.prefix = union(&x.prefix, ye);
            out.suffix = union(&x.suffix, ye);
        },
        (None, None) => {
            out.exact = None;
            out.prefix = union(&x.prefix, &y.prefix);
            out.suffix = union(&x.suffix, &y.suffix);
        },
    }
    if x.exact.is_some() && y.exact.is_none() {
        x.add_exact();
    } else if x.exact.is_none() && y.exact.is_some() {
        y.add_exact();
    }
    out.can_empty = x.can_empty || y.can_empty;
    out.query = x.query.or(y.query);
    out.simplify(false);
    out
}

fn repeat(x: Info) -> (r: Info)
    ensures
        r@ == repeated(x@),
{
    let mut info = x;
    let mut exact: Option<StrSet> = None;
    std::mem::swap(&mut info.exact, &mut exact);
    match exact {
        Some(e) => {
            info.prefix = e.copy();
            info.suffix = e;
        },
        None => {},
    }
    info.simplify(false);
    info
}

proof fn lemma_char_count_grows(ranges: Seq<(char, char)>, i: int)
    requires
        0 <= i <= ranges.len(),
    ensures
        char_count(ranges.take(i)) <= char_count(ranges),
    decreases ranges.len(),
{
    if i < ranges.len() {
        lemma_char_count_grows(ranges.drop_last(), i);
        assert(ranges.drop_last().take(i) =~= ranges.take(i));
    } else {
        assert(ranges.take(i) =~= ranges);
    }
}

proof fn lemma_byte_count_grows(ranges: Seq<(u8, u8)>, i: int)
    requires
        0 <= i <= ranges.len(),
    ensures
        byte_count(ranges.take(i)) <= byte_count(ranges),
    decreases ranges.len(),
{
    if i < ranges.len() {
        lemma_byte_count_grows(ranges.drop_last(), i);
        assert(ranges.drop_last().take(i) =~= ranges.take(i));
    } else {
        assert(ranges.take(i) =~= ranges);
    }
}

/// Whether a class of characters is small enough to be enumerated.
fn few_chars(ranges: &Vec<(char, char)>) -> (r: bool)
    ensures
        r == (char_count(ranges@) <= MAX_CLASS),
{
    let mut count: usize = 0;
    for i in 0..ranges.len()
        invariant
            count == char_count(ranges@.take(i as int)),
            count <= MAX_CLASS,
    {
        let (lo, hi): (char, char) = ranges[i];
        let (lo, hi): (u32, u32) = (code_of(lo), code_of(hi));
        assert(ranges@.take(i as int + 1).drop_last() =~= ranges@.take(i as int));
        proof {
            lemma_char_count_grows(ranges@, i as int + 1);
        }
        if lo <= hi {
            if hi - lo >= MAX_CLASS as u32 {
                return false;
            }
            count += (hi - lo + 1) as usize;
            if count > MAX_CLASS {
                return false;
            }
        }
    }
    assert(ranges@.take(ranges@.len() as int) =~= ranges@);
    true
}

fn few_bytes(ranges: &Vec<(u8, u8)>) -> (r: bool)
    ensures
        r == (byte_count(ranges@) <= MAX_CLASS),
{
    let mut count: usize = 0;
    for i in 0..ranges.len()
        invariant
            count == byte_count(ranges@.take(i as int)),
            count <= MAX_CLASS,
    {
        let (lo, hi): (u8, u8) = ranges[i];
        assert(ranges@.take(i as int + 1).drop_last() =~= ranges@.take(i as int));
        proof {
            lemma_byte_count_grows(ranges@, i as int + 1);
        }
        if lo <= hi {
            count += (hi - lo) as usize + 1;
            if count > MAX_CLASS {
                return false;
            }
        }
    }
    assert(ranges@.take(ranges@.len() as int) =~= ranges@);
    true
}

/// A character in UTF-8.
fn char_bytes(c: char) -> (r: Vec<u8>)
    ensures
        r@ == encode_utf8(seq![c]),
{
    let mut s = String::new();
    s.push(c);
    assert(s@ =~= seq![c]);
    copy_bytes(s.as_str().as_bytes())
}

fn class_facts_of(few: bool, set: StrSet) -> (r: Info)
    ensures
        forall|count: nat, members: Seq<Seq<u8>>|
            few == (count <= MAX_CLASS) && (few ==> set@ == with_all(Seq::empty(), members)) ==> r@
                == #[trigger] class_facts(count, members),
{
    if !few {
        return any_char();
    }
    if set.items.len() == 0 {
        // An empty class matches nothing.
        return no_match();
    }
    let mut info = Info {
        can_empty: false,
        exact: Some(set),
        prefix: StrSet::new(),
        suffix: StrSet::new(),
        query: Query::All,
    };
    assert(info@ == one_of(set@));
    info.simplify(false);
    info
}

fn analyze_chars(ranges: &Vec<(char, char)>) -> (r: Info)
    ensures
        r@ == analyzed(Tree::Unicode(ranges@)),
{
    let few = few_chars(ranges);
    let mut set = StrSet::new();
    if few {
        for i in 0..ranges.len()
            invariant
                set@ == with_all(Seq::empty(), class_chars(ranges@.take(i as int))),
        {
            let (lo, hi): (char, char) = ranges[i];
            let (lo, hi): (u32, u32) = (code_of(lo), code_of(hi));
            let ghost base = class_chars(ranges@.take(i as int));
            assert(ranges@.take(i as int + 1).drop_last() =~= ranges@.take(i as int));
            let mut cp: u32 = lo;
            assert(base + chars_between(lo as int, lo as int) =~= base);
            while cp <= hi
                invariant
                    hi <= 0x10ffff,
                    lo <= cp,
                    lo <= hi ==> cp <= hi + 1,
                    lo > hi ==> cp == lo,
                    set@ == with_all(
                        Seq::empty(),
                        base + chars_between(lo as int, cp as int),
                    ),
                decreases hi + 1 - cp,
            {
                let ghost more = chars_between(lo as int, cp as int + 1);
                match char::from_u32(cp) {
                    Some(c) => {
                        set.insert(char_bytes(c));
                        assert((base + more).drop_last() =~= base + chars_between(
                            lo as int,
                            cp as int,
                        ));
                    },
                    None => {},
                }
                cp += 1;
            }
            if lo > hi {
                assert(chars_between(lo as int, hi as int + 1) =~= Seq::<Seq<u8>>::empty());
                assert(chars_between(lo as int, cp as int) =~= Seq::<Seq<u8>>::empty());
            }
        }
        assert(ranges@.take(ranges@.len() as int) =~= ranges@);
    }
    let r = class_facts_of(few, set);
    assert(r@ == class_facts(char_count(ranges@), class_chars(ranges@)));
    r
}

fn analyze_bytes(ranges: &Vec<(u8, u8)>) -> (r: Info)
    ensures
        r@ == analyzed(Tree::Bytes(ranges@)),
{
    let few = few_bytes(ranges);
    let mut set = StrSet::new();
    if few {
        for i in 0..ranges.len()
            invariant
                set@ == with_all(Seq::empty(), class_bytes(ranges@.take(i as int))),
        {
            let (lo, hi): (u8, u8) = ranges[i];
            let (lo, hi): (u32, u32) = (lo as u32, hi as u32);
            let ghost base = class_bytes(ranges@.take(i as int));
            assert(ranges@.take(i as int + 1).drop_last() =~= ranges@.take(i as int));
            let mut b: u32 = lo;
            assert(base + bytes_between(lo as int, lo as int) =~= base);
            while b <= hi
                invariant
                    hi <= 0xff,
                    lo <= b,
                    lo <= hi ==> b <= hi + 1,
                    lo > hi ==> b == lo,
                    set@ == with_all(Seq::empty(), base + bytes_between(lo as int, b as int)),
                decreases hi + 1 - b,
            {
                let ghost more = bytes_between(lo as int, b as int + 1);
                let item: Vec<u8> = vec![b as u8];
                assert(item@ =~= more.last());
                assert((base + more).drop_last() =~= base + bytes_between(lo as int, b as int));
                set.insert(item);
                b += 1;
            }
            assert(bytes_between(lo as int, hi as int + 1) =~= bytes_between(lo as int, b as int));
        }
        assert(ranges@.take(ranges@.len() as int) =~= ranges@);
    }
    let r = class_facts_of(few, set);
    assert(r@ == class_facts(byte_count(ranges@), class_bytes(ranges@)));
    r
}

fn analyze_sequence(subs: &Vec<Node>) -> (r: Info)
    ensures
        r@ == analyzed_sequence(trees(subs@)),
    decreases subs,
{
    let ghost ts = trees(subs@);
    if subs.len() == 0 {
        return empty_string();
    }
    assert(decreases_to!(subs => subs@[0]));
    let mut info = analyze(&subs[0]);
    assert(ts.take(1)[0] == subs@[0].tree());
    for i in 1..subs.len()
        invariant
            ts == trees(subs@),
            1 <= subs@.len(),
            info@ == analyzed_sequence(ts.take(i as int)),
    {
        assert(decreases_to!(subs => subs@[i as int]));
        assert(ts[i as int] == subs@[i as int].tree());
        assert(ts.take(i as int + 1).drop_last() =~= ts.take(i as int));
        let next = analyze(&subs[i]);
        info = concat(info, next);
    }
    assert(ts.take(subs@.len() as int) =~= ts);
    info
}

fn analyze_choice(subs: &Vec<Node>) -> (r: Info)
    ensures
        r@ == analyzed_choice(trees(subs@)),
    decreases subs,
{
    let ghost ts = trees(subs@);
    if subs.len() == 0 {
        return no_match();
    }
    assert(decreases_to!(subs => subs@[0]));
    let mut info = analyze(&subs[0]);
    assert(ts.take(1)[0] == subs@[0].tree());
    for i in 1..subs.len()
        invariant
            ts == trees(subs@),
            1 <= subs@.len(),
            info@ == analyzed_choice(ts.take(i as int)),
    {
        assert(decreases_to!(subs => subs@[i as int]));
        assert(ts[i as int] == subs@[i as int].tree());
        assert(ts.take(i as int + 1).drop_last() =~= ts.take(i as int));
        let next = analyze(&subs[i]);
        info = alternate(info, next);
    }
    assert(ts.take(subs@.len() as int) =~= ts);
    info
}

fn analyze(node: &Node) -> (r: Info)
    ensures
        r@ == analyzed(node.tree()),
    decreases node,
{
    match node {
        Node::Empty => empty_string(),
        Node::Literal(lit) => literal(lit),
        Node::Unicode(ranges) => analyze_chars(ranges),
        Node::Bytes(ranges) => analyze_bytes(ranges),
        // Anchors and boundaries match the empty string; they constrain
        // *where*, not *what*, so they contribute nothing to trigrams.
        Node::Look => empty_string(),
        Node::Capture(sub) => analyze(sub),
        Node::Repeat { min, max, sub } => {
            if *min == 0 {
                let optional = match max {
                    Some(m) => *m == 1,
                    None => false,
                };
                if optional {
                    // x? = x | ""
                    alternate(analyze(sub), empty_string())
                } else {
                    // x* (or x{0,n}): zero copies allowed, nothing guaranteed.
                    any_match()
                }
            } else {
                // x+ / x{n,}: at least one copy, so x's trigrams must appear,
                // but matches are no longer exact strings.
                repeat(analyze(sub))
            }
        },
        Node::Concat(subs) => analyze_sequence(subs),
        Node::Alternate(subs) => analyze_choice(subs),
    }
}

/// The index query for a pattern with the given tree.
pub fn plan_tree(node: &Node) -> (q: Query)
    ensures
        q.formula() == planned(node.tree()),
{
    let mut info = analyze(node);
    info.simplify(true);
    info.add_exact();
    info.query
}

} // verus!
