//! Files found by walking a tree.

use crate::order::{by_key, sort_by_key, Keyed};
use crate::text::{chars_of, string_of};
use vstd::prelude::*;
use vstd::utf8::encode_utf8;

verus! {

/// A file found by walking the tree.
#[derive(Debug)]
pub struct Candidate {
    pub rel_path: String,
    pub size: u64,
    pub mtime: u64,
    /// Dotted path component, or the hidden attribute on Windows.
    pub hidden: bool,
}

impl Keyed for Candidate {
    open spec fn key(&self) -> Seq<u8> {
        encode_utf8(self.rel_path@)
    }

    fn key_bytes(&self) -> (r: &[u8]) {
        self.rel_path.as_str().as_bytes()
    }
}

/// Candidates in the order of their paths, so that ids stay deterministic
/// regardless of traversal order.
pub fn sort_candidates(found: Vec<Candidate>) -> (r: Vec<Candidate>)
    ensures
        by_key(r@),
        r@.to_multiset() == found@.to_multiset(),
{
    sort_by_key(found)
}

/// The first `n` components of a path, `/`-separated.
pub open spec fn joined_path(parts: Seq<String>, n: int) -> Seq<char>
    decreases n,
{
    if n <= 0 {
        Seq::empty()
    } else {
        let before = joined_path(parts, n - 1);
        if before.len() == 0 {
            parts[n - 1]@
        } else {
            before.push('/') + parts[n - 1]@
        }
    }
}

/// Whether a path component starts with a dot.
pub open spec fn is_dotted(parts: Seq<String>) -> bool {
    exists|i: int| 0 <= i < parts.len() && (#[trigger] parts[i])@.len() > 0 && parts[i]@[0] == '.'
}

/// `/`-separated relative path.
pub fn rel_string(parts: &Vec<String>) -> (r: String)
    ensures
        r@ == joined_path(parts@, parts@.len() as int),
{
    let mut out: Vec<char> = Vec::new();
    for i in 0..parts.len()
        invariant
            out@ == joined_path(parts@, i as int),
    {
        if out.len() > 0 {
            out.push('/');
        }
        let mut part = chars_of(parts[i].as_str());
        out.append(&mut part);
        assert(out@ =~= joined_path(parts@, i as int + 1));
    }
    string_of(&out)
}

fn dotted(parts: &Vec<String>) -> (r: bool)
    ensures
        r == is_dotted(parts@),
{
    for i in 0..parts.len()
        invariant
            forall|k: int|
                0 <= k < i ==> !((#[trigger] parts@[k])@.len() > 0 && parts@[k]@[0] == '.'),
    {
        let part = chars_of(parts[i].as_str());
        if part.len() > 0 && part[0] == '.' {
            assert(parts@[i as int]@[0] == '.');
            return true;
        }
    }
    false
}

/// The candidate that a file makes, from the components of its path below
/// the root; none for an empty path. Hidden files are included and marked, so
/// the index covers them and a search decides without a rebuild.
pub fn candidate_of(parts: &Vec<String>, size: u64, mtime: u64, attr_hidden: bool) -> (r: Option<
    Candidate,
>)
    ensures
        match r {
            Some(c) => c.rel_path@ == joined_path(parts@, parts@.len() as int) && c.rel_path@.len()
                > 0 && c.size == size && c.mtime == mtime && c.hidden == (is_dotted(parts@)
                || attr_hidden),
            None => joined_path(parts@, parts@.len() as int).len() == 0,
        },
{
    let rel_path = rel_string(parts);
    let chars = chars_of(rel_path.as_str());
    if chars.len() == 0 {
        return None;
    }
    let hidden = dotted(parts) || attr_hidden;
    Some(Candidate { rel_path, size, mtime, hidden })
}

/// Whether a walk stays out of a directory: `.git`, hidden or not.
pub fn prunes(name: &str) -> (r: bool)
    ensures
        r == (name@ == ".git"@),
{
    proof {
        reveal_strlit(".git");
    }
    let c = chars_of(name);
    let r = c.len() == 4 && c[0] == '.' && c[1] == 'g' && c[2] == 'i' && c[3] == 't';
    proof {
        if r {
            assert(name@ =~= ".git"@);
        }
    }
    r
}

/// A path is its components with a slash between them.
pub proof fn law_path_is_its_components(parts: Seq<String>, part: String)
    requires
        parts.len() > 0 ==> parts[0]@.len() > 0,
    ensures
        joined_path(parts.push(part), parts.len() as int + 1) == if parts.len() == 0 {
            part@
        } else {
            joined_path(parts, parts.len() as int) + seq!['/'] + part@
        },
{
    let n = parts.len() as int;
    lemma_same_path(parts, parts.push(part), n);
    if n > 0 {
        lemma_path_grows(parts, n);
        let before = joined_path(parts, n);
        assert(before.push('/') =~= before + seq!['/']);
    }
}

proof fn lemma_same_path(a: Seq<String>, b: Seq<String>, n: int)
    requires
        n <= a.len() <= b.len(),
        forall|i: int| 0 <= i < a.len() ==> a[i] == b[i],
    ensures
        joined_path(a, n) == joined_path(b, n),
    decreases n,
{
    if n > 0 {
        lemma_same_path(a, b, n - 1);
    }
}

proof fn lemma_path_grows(parts: Seq<String>, n: int)
    requires
        0 < n <= parts.len(),
        parts[0]@.len() > 0,
    ensures
        joined_path(parts, n).len() > 0,
    decreases n,
{
    if n > 1 {
        lemma_path_grows(parts, n - 1);
    } else {
        assert(joined_path(parts, 0).len() == 0);
    }
}

/// A file is hidden by any component of its path that begins with a dot.
pub proof fn law_dotted_component_hides(parts: Seq<String>, part: String)
    ensures
        !is_dotted(Seq::empty()),
        is_dotted(parts.push(part)) <==> is_dotted(parts) || (part@.len() > 0 && part@[0] == '.'),
{
    let all = parts.push(part);
    if is_dotted(parts) {
        let i = choose|i: int|
            0 <= i < parts.len() && (#[trigger] parts[i])@.len() > 0 && parts[i]@[0] == '.';
        assert(all[i] == parts[i]);
    }
    if part@.len() > 0 && part@[0] == '.' {
        assert(all[parts.len() as int]@[0] == '.');
    }
    if is_dotted(all) {
        let i = choose|i: int|
            0 <= i < all.len() && (#[trigger] all[i])@.len() > 0 && all[i]@[0] == '.';
        if i < parts.len() {
            assert(all[i] == parts[i]);
        }
    }
}

} // verus!
