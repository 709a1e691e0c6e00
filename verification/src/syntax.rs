//! Syntax trees of regular expressions, and the strings they match.

use crate::bytes::push_bytes;
use regex_syntax::hir::{Class, Hir, HirKind};
use vstd::prelude::*;
use vstd::utf8::encode_utf8;

verus! {

/// The mathematical form of a syntax tree.
pub enum Tree {
    Empty,
    Literal(Seq<u8>),
    /// One character, in UTF-8, of the ranges.
    Unicode(Seq<(char, char)>),
    /// One byte of the ranges.
    Bytes(Seq<(u8, u8)>),
    /// An anchor or a boundary: it constrains where, not what.
    Look,
    Capture(Box<Tree>),
    /// At least `min` and at most `max` copies.
    Repeat { min: nat, max: Option<nat>, sub: Box<Tree> },
    Concat(Seq<Tree>),
    Alternate(Seq<Tree>),
}

/// A syntax tree.
pub enum Node {
    Empty,
    Literal(Vec<u8>),
    Unicode(Vec<(char, char)>),
    Bytes(Vec<(u8, u8)>),
    Look,
    Capture(Box<Node>),
    Repeat { min: u32, max: Option<u32>, sub: Box<Node> },
    Concat(Vec<Node>),
    Alternate(Vec<Node>),
}

impl Node {
    pub open spec fn tree(self) -> Tree
        decreases self,
    {
        match self {
            Node::Empty => Tree::Empty,
            Node::Literal(b) => Tree::Literal(b@),
            Node::Unicode(r) => Tree::Unicode(r@),
            Node::Bytes(r) => Tree::Bytes(r@),
            Node::Look => Tree::Look,
            Node::Capture(sub) => Tree::Capture(Box::new(sub.tree())),
            Node::Repeat { min, max, sub } => Tree::Repeat {
                min: min as nat,
                max: match max { Some(m) => Some(m as nat), None => None },
                sub: Box::new(sub.tree()),
            },
            Node::Concat(subs) => Tree::Concat(trees(subs@)),
            Node::Alternate(subs) => Tree::Alternate(trees(subs@)),
        }
    }
}

pub open spec fn trees(nodes: Seq<Node>) -> Seq<Tree>
    decreases nodes,
{
    Seq::new(nodes.len(), |i: int| if 0 <= i < nodes.len() { nodes[i].tree() } else { Tree::Empty })
}

/// Whether a class of characters has `c`.
pub open spec fn has_char(ranges: Seq<(char, char)>, c: char) -> bool {
    exists|i: int| 0 <= i < ranges.len() && (#[trigger] ranges[i]).0 <= c <= ranges[i].1
}

/// Whether a class of bytes has `b`.
pub open spec fn has_byte(ranges: Seq<(u8, u8)>, b: u8) -> bool {
    exists|i: int| 0 <= i < ranges.len() && (#[trigger] ranges[i]).0 <= b <= ranges[i].1
}

/// Whether a repetition allows `n` copies.
pub open spec fn allowed(min: nat, max: Option<nat>, n: nat) -> bool {
    min <= n && (max matches Some(m) ==> n <= m)
}

/// Whether `s` is a string that the tree matches, wherever its anchors and
/// boundaries hold.
pub open spec fn accepts(t: Tree, s: Seq<u8>) -> bool
    decreases t, 0nat,
{
    match t {
        Tree::Empty => s.len() == 0,
        Tree::Literal(b) => s == b,
        Tree::Unicode(ranges) => exists|c: char|
            #[trigger] has_char(ranges, c) && s == encode_utf8(seq![c]),
        Tree::Bytes(ranges) => s.len() == 1 && has_byte(ranges, s[0]),
        Tree::Look => s.len() == 0,
        Tree::Capture(sub) => accepts(*sub, s),
        Tree::Repeat { min, max, sub } => exists|n: nat| #[trigger]
            allowed(min, max, n) && accepts_times(*sub, n, s),
        Tree::Concat(subs) => accepts_all(subs, s),
        Tree::Alternate(subs) => accepts_some(subs, s),
    }
}

/// Whether `s` is `n` strings one after the other that the tree matches.
pub open spec fn accepts_times(t: Tree, n: nat, s: Seq<u8>) -> bool
    decreases t, n + 1,
{
    if n == 0 {
        s.len() == 0
    } else {
        exists|k: int|
            0 <= k <= s.len() && accepts_times(t, (n - 1) as nat, #[trigger] s.take(k)) && accepts(
                t,
                s.skip(k),
            )
    }
}

/// Whether `s` is one string for each tree, one after the other.
pub open spec fn accepts_all(subs: Seq<Tree>, s: Seq<u8>) -> bool
    decreases subs, 0nat,
{
    if subs.len() == 0 {
        s.len() == 0
    } else {
        exists|k: int|
            0 <= k <= s.len() && accepts_all(subs.drop_last(), #[trigger] s.take(k)) && accepts(
                subs.last(),
                s.skip(k),
            )
    }
}

/// Whether some tree matches `s`.
pub open spec fn accepts_some(subs: Seq<Tree>, s: Seq<u8>) -> bool
    decreases subs, 0nat,
{
    if subs.len() == 0 {
        false
    } else {
        accepts_some(subs.drop_last(), s) || accepts(subs.last(), s)
    }
}

/// A parsed pattern of regex-syntax.
#[verifier::external_type_specification]
#[verifier::external_body]
pub struct ExHir(regex_syntax::hir::Hir);

/// A class of characters or of bytes of regex-syntax.
#[verifier::external_type_specification]
#[verifier::external_body]
pub struct ExClass(regex_syntax::hir::Class);

/// The tree that a parsed pattern holds.
pub uninterp spec fn hir_tree(h: Hir) -> Tree;

/// The ranges that a class holds.
pub uninterp spec fn class_tree(c: Class) -> Tree;

/// One level of a parsed pattern.
pub enum Level<'a> {
    Empty,
    Literal(&'a [u8]),
    Class(&'a Class),
    Look,
    Capture(&'a Hir),
    Repeat(u32, Option<u32>, &'a Hir),
    Concat(&'a [Hir]),
    Alternate(&'a [Hir]),
}

pub open spec fn level_tree(l: Level) -> Tree {
    match l {
        Level::Empty => Tree::Empty,
        Level::Literal(b) => Tree::Literal(b@),
        Level::Class(c) => class_tree(*c),
        Level::Look => Tree::Look,
        Level::Capture(h) => Tree::Capture(Box::new(hir_tree(*h))),
        Level::Repeat(min, max, h) => Tree::Repeat {
            min: min as nat,
            max: match max { Some(m) => Some(m as nat), None => None },
            sub: Box::new(hir_tree(*h)),
        },
        Level::Concat(s) => Tree::Concat(Seq::new(s@.len(), |i: int| hir_tree(s@[i]))),
        Level::Alternate(s) => Tree::Alternate(Seq::new(s@.len(), |i: int| hir_tree(s@[i]))),
    }
}

/// `Hir::kind`: the top level of the tree.
#[verifier::external_body]
fn level(h: &Hir) -> (l: Level<'_>)
    ensures
        level_tree(l) == hir_tree(*h),
{
    match h.kind() {
        HirKind::Empty => Level::Empty,
        HirKind::Literal(l) => Level::Literal(&l.0),
        HirKind::Class(c) => Level::Class(c),
        HirKind::Look(_) => Level::Look,
        HirKind::Capture(c) => Level::Capture(&c.sub),
        HirKind::Repetition(r) => Level::Repeat(r.min, r.max, &r.sub),
        HirKind::Concat(subs) => Level::Concat(subs),
        HirKind::Alternation(subs) => Level::Alternate(subs),
    }
}

/// The ranges of a class.
pub enum Ranges {
    Unicode(Vec<(char, char)>),
    Bytes(Vec<(u8, u8)>),
}

/// `ClassUnicode::iter` and `ClassBytes::iter`: the ranges of a class, each
/// with its first and its last member.
#[verifier::external_body]
fn class_ranges(c: &Class) -> (r: Ranges)
    ensures
        class_tree(*c) == match r {
            Ranges::Unicode(v) => Tree::Unicode(v@),
            Ranges::Bytes(v) => Tree::Bytes(v@),
        },
{
    match c {
        Class::Unicode(c) => Ranges::Unicode(c.iter().map(|r| (r.start(), r.end())).collect()),
        Class::Bytes(c) => Ranges::Bytes(c.iter().map(|r| (r.start(), r.end())).collect()),
    }
}

/// Reads a parsed pattern.
pub fn read_hir(h: &Hir) -> (n: Node)
    ensures
        n.tree() == hir_tree(*h),
    decreases hir_tree(*h),
{
    match level(h) {
        Level::Empty => Node::Empty,
        Level::Literal(b) => {
            let mut bytes: Vec<u8> = Vec::new();
            push_bytes(&mut bytes, b);
            assert(bytes@ =~= b@);
            Node::Literal(bytes)
        },
        Level::Class(c) => match class_ranges(c) {
            Ranges::Unicode(v) => Node::Unicode(v),
            Ranges::Bytes(v) => Node::Bytes(v),
        },
        Level::Look => Node::Look,
        Level::Capture(sub) => {
            proof {
                let t = hir_tree(*h);
                assert(*t->Capture_0 == hir_tree(*sub));
                assert(decreases_to!(t => t->Capture_0));
            }
            Node::Capture(Box::new(read_hir(sub)))
        },
        Level::Repeat(min, max, sub) => {
            proof {
                let t = hir_tree(*h);
                assert(*t->sub == hir_tree(*sub));
                assert(decreases_to!(t => t->sub));
            }
            Node::Repeat { min, max, sub: Box::new(read_hir(sub)) }
        },
        Level::Concat(subs) => {
            let mut out: Vec<Node> = Vec::new();
            let mut i: usize = 0;
            while i < subs.len()
                invariant
                    i <= subs.len(),
                    out@.len() == i,
                    hir_tree(*h) == Tree::Concat(Seq::new(subs@.len(), |j: int| hir_tree(subs@[j]))),
                    forall|j: int| 0 <= j < i ==> (#[trigger] out@[j]).tree() == hir_tree(subs@[j]),
                decreases subs.len() - i,
            {
                assert(hir_tree(*h)->Concat_0[i as int] == hir_tree(subs@[i as int]));
                out.push(read_hir(&subs[i]));
                i += 1;
            }
            assert(trees(out@) =~= hir_tree(*h)->Concat_0);
            Node::Concat(out)
        },
        Level::Alternate(subs) => {
            let mut out: Vec<Node> = Vec::new();
            let mut i: usize = 0;
            while i < subs.len()
                invariant
                    i <= subs.len(),
                    out@.len() == i,
                    hir_tree(*h) == Tree::Alternate(Seq::new(subs@.len(), |j: int| hir_tree(subs@[j]))),
                    forall|j: int| 0 <= j < i ==> (#[trigger] out@[j]).tree() == hir_tree(subs@[j]),
                decreases subs.len() - i,
            {
                assert(hir_tree(*h)->Alternate_0[i as int] == hir_tree(subs@[i as int]));
                out.push(read_hir(&subs[i]));
                i += 1;
            }
            assert(trees(out@) =~= hir_tree(*h)->Alternate_0);
            Node::Alternate(out)
        },
    }
}

/// What regex-syntax makes of a pattern whose `^` and `$` match at line
/// breaks: its tree, or the text of the error.
pub uninterp spec fn parse_result(pattern: Seq<char>, case_insensitive: bool) -> Result<
    Tree,
    Seq<char>,
>;

/// `regex_syntax::Parser::parse`, from a `ParserBuilder` with the given case
/// sensitivity and multi-line mode on: the parsed pattern, or the error's
/// text. Only that the result is a function of the arguments is claimed.
#[verifier::external_body]
fn parse_hir(pattern: &str, case_insensitive: bool) -> (r: Result<Hir, String>)
    ensures
        match r {
            Ok(h) => parse_result(pattern@, case_insensitive) == Ok::<Tree, Seq<char>>(
                hir_tree(h),
            ),
            Err(e) => parse_result(pattern@, case_insensitive) == Err::<Tree, Seq<char>>(e@),
        },
{
    regex_syntax::ParserBuilder::new()
        .case_insensitive(case_insensitive)
        .multi_line(true)
        .build()
        .parse(pattern)
        .map_err(|e| e.to_string())
}

/// The syntax tree of a pattern.
pub fn parse(pattern: &str, case_insensitive: bool) -> (r: Result<Node, String>)
    ensures
        match r {
            Ok(n) => parse_result(pattern@, case_insensitive) == Ok::<Tree, Seq<char>>(n.tree()),
            Err(e) => parse_result(pattern@, case_insensitive) == Err::<Tree, Seq<char>>(e@),
        },
{
    match parse_hir(pattern, case_insensitive) {
        Ok(h) => Ok(read_hir(&h)),
        Err(e) => Err(e),
    }
}

} // verus!
