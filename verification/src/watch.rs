//! `grix watch`: keep the index fresh in the background.
//!
//! Instead of walking the tree on every search, a watcher subscribes to
//! filesystem events and reindexes incrementally as files change. Searches
//! then skip their own refresh (see the heartbeat marker in `store`) and stay
//! instant *and* current.
//!
//! What is decided here: which events count, when a burst of changes is over,
//! and how often a failed build is tried again.

use crate::order::{
    by_key, lemma_rank_flip, lemma_rank_same, lower_bound, rank, rank_of, Keyed, Rank,
};
use crate::search::lines::{find_line_end, lemma_line_end, line_end};
use crate::text::{
    chars_of, find_char, find_from, same_text, slice_of, string_of, texts, utf8_text,
};
use ignore::gitignore::{Gitignore, GitignoreBuilder};
use vstd::prelude::*;
use vstd::slice::slice_subrange;
use vstd::utf8::{decode_utf8, encode_utf8, encode_utf8_decode_utf8, valid_utf8};

verus! {

/// Quiet period after the last change before reindexing, in milliseconds.
pub const DEBOUNCE_MS: u64 = 400;

/// Upper bound on debounce deferral: even if changes keep arriving faster
/// than the quiet period (e.g. a log writer), reindex at least this often so a
/// continuous writer cannot starve the index forever.
pub const MAX_PENDING_MS: u64 = 5000;

/// How often to refresh the heartbeat.
pub const HEARTBEAT_EVERY_MS: u64 = 5000;

/// How long to wait for an event.
pub const POLL_MS: u64 = 500;

/// How often a build is tried.
pub const ATTEMPTS: u32 = 4;

/// The pause between two tries.
pub const RETRY_PAUSE_MS: u64 = 200;

/// What an event says happened.
#[derive(Debug, Clone, Copy, PartialEq, Eq, Structural)]
pub enum EventKind {
    Create,
    Modify,
    Remove,
    Other,
}

/// Whether an event can mean that a file changed.
pub fn relevant(kind: EventKind) -> (r: bool)
    ensures
        r == (kind == EventKind::Create || kind == EventKind::Modify || kind == EventKind::Remove),
{
    match kind {
        EventKind::Other => false,
        _ => true,
    }
}

/// The pause before the next try of a build that failed `tried` times: on
/// Windows the atomic rename can briefly fail while a concurrent search holds
/// the index. None when it is given up.
pub fn next_try(tried: u32) -> (pause: Option<u64>)
    ensures
        pause == if tried >= ATTEMPTS {
            None
        } else if tried == 0 {
            Some(0u64)
        } else {
            Some(RETRY_PAUSE_MS)
        },
        pause is Some <==> tried < 4,
        pause matches Some(ms) ==> ms <= 200,
{
    if tried >= ATTEMPTS {
        None
    } else if tried == 0 {
        Some(0)
    } else {
        Some(RETRY_PAUSE_MS)
    }
}

/// A path that changed.
#[derive(Debug)]
struct Changed {
    path: String,
}

impl Keyed for Changed {
    closed spec fn key(&self) -> Seq<u8> {
        encode_utf8(self.path@)
    }

    fn key_bytes(&self) -> (r: &[u8]) {
        self.path.as_str().as_bytes()
    }
}

/// Changes that wait to be indexed.
pub struct Pending {
    /// The paths, ordered, each once.
    changed: Vec<Changed>,
    last_event: u64,
    /// When the oldest still-pending change arrived.
    first_pending: Option<u64>,
}

impl Pending {
    spec fn names(&self) -> Seq<Seq<char>> {
        Seq::new(self.changed@.len(), |i: int| self.changed@[i].path@)
    }

    /// The paths that changed.
    pub closed spec fn paths(&self) -> Set<Seq<char>> {
        self.names().to_set()
    }

    /// When the last change arrived.
    pub closed spec fn last(&self) -> u64 {
        self.last_event
    }

    /// When the oldest change arrived.
    pub closed spec fn first(&self) -> Option<u64> {
        self.first_pending
    }

    spec fn tidy(&self) -> bool {
        &&& by_key(self.changed@)
        &&& forall|i: int, j: int|
            0 <= i < j < self.changed@.len() ==> (#[trigger] self.changed@[i]).path@ != (
            #[trigger] self.changed@[j]).path@
    }

    pub closed spec fn wf(&self) -> bool {
        &&& self.tidy()
        &&& self.changed@.len() > 0 <==> self.first_pending is Some
    }

    pub fn new(now: u64) -> (r: Pending)
        ensures
            r.wf(),
            r.paths() == Set::<Seq<char>>::empty(),
            r.first() is None,
            r.last() == now,
    {
        let r = Pending { changed: Vec::new(), last_event: now, first_pending: None };
        assert(r.paths() =~= Set::<Seq<char>>::empty());
        r
    }

    /// Adds a path.
    fn add(&mut self, path: String)
        requires
            old(self).tidy(),
        ensures
            final(self).tidy(),
            final(self).paths() == old(self).paths().insert(path@),
            final(self).last() == old(self).last(),
            final(self).first() == old(self).first(),
    {
        let ghost before = self.changed@;
        let ghost old_names = self.names();
        let ghost old_paths = self.paths();
        let ghost key = encode_utf8(path@);
        let at: usize = lower_bound(&self.changed, path.as_str().as_bytes());
        let mut there = false;
        if at < self.changed.len() {
            match rank_of(self.changed[at].key_bytes(), path.as_str().as_bytes()) {
                Rank::Same => {
                    there = true;
                },
                _ => {},
            }
        }
        proof {
            if at < before.len() {
                lemma_rank_same(before[at as int].key(), key);
                encode_utf8_decode_utf8(before[at as int].path@);
                encode_utf8_decode_utf8(path@);
                assert(there == (before[at as int].path@ == path@));
            }
        }
        if !there {
            let ghost name = path@;
            self.changed.insert(at, Changed { path });
            proof {
                lemma_inserted(before, at as int, self.changed@[at as int]);
                assert(self.changed@ =~= before.insert(at as int, self.changed@[at as int]));
                assert(self.paths() =~= old_paths.insert(name)) by {
                    let now_names = self.names();
                    assert forall|p: Seq<char>| self.paths().contains(p) <==> old_paths.insert(
                        name,
                    ).contains(p) by {
                        if old_names.contains(p) {
                            let i = choose|i: int| 0 <= i < old_names.len() && old_names[i] == p;
                            if i < at {
                                assert(now_names[i] == p);
                            } else {
                                assert(now_names[i + 1] == p);
                            }
                        }
                        if p == name {
                            assert(now_names[at as int] == p);
                        }
                        if now_names.contains(p) {
                            let i = choose|i: int| 0 <= i < now_names.len() && now_names[i] == p;
                            if i < at {
                                assert(old_names[i] == p);
                            } else if i > at {
                                assert(old_names[i - 1] == p);
                            }
                        }
                    }
                }
            }
        } else {
            assert(self.paths() =~= old_paths.insert(path@)) by {
                assert(old_names[at as int] == path@);
                assert(self.names() =~= old_names);
            }
        }
    }

    /// Marks a change at `now`, if there are any.
    fn touch(&mut self, now: u64)
        requires
            old(self).tidy(),
            old(self).paths() == Set::<Seq<char>>::empty() ==> old(self).first() is None,
        ensures
            final(self).wf(),
            final(self).paths() == old(self).paths(),
            old(self).paths() == Set::<Seq<char>>::empty() ==> final(self).last() == old(self).last()
                && final(self).first() is None,
            old(self).paths() != Set::<Seq<char>>::empty() ==> final(self).last() == now && final(self).first()
                == match old(self).first() {
                Some(t) => Some(t),
                None => Some(now),
            },
    {
        if self.changed.len() > 0 {
            assert(self.paths().contains(self.names()[0]));
            self.last_event = now;
            self.first_pending = match self.first_pending {
                Some(t) => Some(t),
                None => Some(now),
            };
        } else {
            assert(self.paths() =~= Set::<Seq<char>>::empty());
        }
    }

    /// An event at `now`: the paths in it that are not ignored.
    pub fn note_event(&mut self, kind: EventKind, paths: Vec<String>, now: u64)
        requires
            old(self).wf(),
        ensures
            final(self).wf(),
            ({
                let all = old(self).paths().union(texts(paths@).to_set());
                if kind == EventKind::Other {
                    final(self).paths() == old(self).paths() && final(self).last() == old(self).last()
                        && final(self).first() == old(self).first()
                } else {
                    &&& final(self).paths() == all
                    &&& all == Set::<Seq<char>>::empty() ==> final(self).last() == old(self).last()
                        && final(self).first() is None
                    &&& all != Set::<Seq<char>>::empty() ==> final(self).last() == now && final(self).first()
                        == match old(self).first() {
                        Some(t) => Some(t),
                        None => Some(now),
                    }
                }
            }),
    {
        if !relevant(kind) {
            return;
        }
        let ghost before = *self;
        let ghost all = texts(paths@);
        let n: usize = paths.len();
        assert(self.paths() =~= before.paths().union(all.take(0).to_set()));
        for i in 0..n
            invariant
                n == paths@.len(),
                all == texts(paths@),
                self.tidy(),
                self.last() == before.last(),
                self.first() == before.first(),
                self.paths() == before.paths().union(all.take(i as int).to_set()),
        {
            let ghost was = self.paths();
            self.add(paths[i].clone());
            assert(self.paths() =~= before.paths().union(all.take(i as int + 1).to_set())) by {
                let (a, b) = (all.take(i as int), all.take(i as int + 1));
                assert(b =~= a.push(all[i as int]));
                assert forall|p: Seq<char>| b.contains(p) <==> a.contains(p) || p == all[i as int]
                    by {
                    if a.contains(p) {
                        let k = choose|k: int| 0 <= k < a.len() && a[k] == p;
                        assert(b[k] == p);
                    }
                    if p == all[i as int] {
                        assert(b[i as int] == p);
                    }
                    if b.contains(p) && p != all[i as int] {
                        let k = choose|k: int| 0 <= k < b.len() && b[k] == p;
                        assert(a[k] == p);
                    }
                }
            }
        }
        assert(all.take(n as int) =~= all);
        proof {
            if before.changed@.len() > 0 {
                assert(before.paths().contains(before.names()[0]));
                assert(self.paths().contains(before.names()[0]));
            }
        }
        self.touch(now);
    }

    /// A backend error at `now`, which can mean dropped events: a reindex is
    /// scheduled so that nothing stays silently missing. The incremental
    /// build rescans the tree, so it repairs any missed change.
    pub fn note_error(&mut self, root: &str, now: u64)
        requires
            old(self).wf(),
        ensures
            final(self).wf(),
            final(self).paths() == old(self).paths().insert(root@),
            final(self).last() == now,
            final(self).first() == match old(self).first() {
                Some(t) => Some(t),
                None => Some(now),
            },
    {
        let chars = chars_of(root);
        self.add(string_of(&chars));
        assert(self.paths().contains(root@));
        self.touch(now);
    }

    /// Whether it is time to reindex: changes wait, and none came for a
    /// while, or the oldest waits too long.
    pub fn due(&self, now: u64) -> (r: bool)
        requires
            self.wf(),
        ensures
            r == (self.first() matches Some(first) && (now - self.last() >= DEBOUNCE_MS || now
                - first >= MAX_PENDING_MS)),
            r == (self.first() matches Some(first) && (now - self.last() >= 400 || now - first
                >= 5000)),
    {
        match self.first_pending {
            Some(first) => (now >= self.last_event && now - self.last_event >= DEBOUNCE_MS) || (now
                >= first && now - first >= MAX_PENDING_MS),
            None => false,
        }
    }

    /// Takes the changes; their number.
    pub fn take(&mut self) -> (n: usize)
        requires
            old(self).wf(),
        ensures
            final(self).wf(),
            final(self).paths() == Set::<Seq<char>>::empty(),
            final(self).first() is None,
            final(self).last() == old(self).last(),
            old(self).paths().finite(),
            n == old(self).paths().len(),
            n == 0 <==> old(self).first() is None,
    {
        let n: usize = self.changed.len();
        proof {
            self.names().unique_seq_to_set();
        }
        self.changed = Vec::new();
        self.first_pending = None;
        assert(self.paths() =~= Set::<Seq<char>>::empty());
        n
    }
}

/// Inserting where it belongs keeps a list ordered and its paths distinct.
proof fn lemma_inserted(list: Seq<Changed>, at: int, x: Changed)
    requires
        by_key(list),
        forall|i: int, j: int|
            0 <= i < j < list.len() ==> (#[trigger] list[i]).path@ != (#[trigger] list[j]).path@,
        0 <= at <= list.len(),
        forall|k: int| 0 <= k < at ==> rank((#[trigger] list[k]).key(), x.key()) == Rank::Below,
        forall|k: int|
            at <= k < list.len() ==> rank((#[trigger] list[k]).key(), x.key()) != Rank::Below,
        at < list.len() ==> list[at].path@ != x.path@,
    ensures
        by_key(list.insert(at, x)),
        forall|i: int, j: int|
            0 <= i < j < list.len() + 1 ==> (#[trigger] list.insert(at, x)[i]).path@ != (
            #[trigger] list.insert(at, x)[j]).path@,
{
    let all = list.insert(at, x);
    assert forall|k: int| 0 <= k < list.len() implies (#[trigger] list[k]).path@ != x.path@ by {
        lemma_rank_same(list[k].key(), x.key());
        if k > at {
            // All from `at` on rank at or above, and `at` itself is not it.
            encode_utf8_decode_utf8(list[at].path@);
            encode_utf8_decode_utf8(x.path@);
            lemma_rank_same(list[at].key(), x.key());
            lemma_rank_flip(x.key(), list[at].key());
            assert(rank(list[k].key(), list[at].key()) != Rank::Below);
        }
    }
    assert forall|i: int, j: int| 0 <= i < j < all.len() implies rank(
        (#[trigger] all[j]).key(),
        (#[trigger] all[i]).key(),
    ) != Rank::Below by {
        let oi = if i < at {
            i
        } else {
            i - 1
        };
        let oj = if j < at {
            j
        } else {
            j - 1
        };
        if i == at {
            assert(all[j] == list[j - 1]);
        } else if j == at {
            assert(all[i] == list[i]);
            lemma_rank_flip(list[i].key(), x.key());
        } else {
            assert(all[i] == list[oi] && all[j] == list[oj]);
        }
    }
    assert forall|i: int, j: int| 0 <= i < j < all.len() implies (#[trigger] all[i]).path@ != (
    #[trigger] all[j]).path@ by {
        if i == at {
            assert(all[j] == list[j - 1]);
        } else if j == at {
            assert(all[i] == list[i]);
        } else {
            let oi = if i < at {
                i
            } else {
                i - 1
            };
            let oj = if j < at {
                j
            } else {
                j - 1
            };
            assert(all[i] == list[oi] && all[j] == list[oj]);
        }
    }
}

/// A set of ignore rules in the making.
#[verifier::external_type_specification]
#[verifier::external_body]
pub struct ExGitignoreBuilder(GitignoreBuilder);

/// A set of ignore rules.
#[verifier::external_type_specification]
#[verifier::external_body]
pub struct ExGitignore(Gitignore);

/// The rules that were added.
pub uninterp spec fn added_rules(b: GitignoreBuilder) -> Seq<Seq<char>>;

/// The rules of a set.
pub uninterp spec fn rules_in(g: Gitignore) -> Seq<Seq<char>>;

/// Whether a line is a rule that can be added, or a comment, or blank.
pub uninterp spec fn is_rule(line: Seq<char>) -> bool;

/// Whether rules make a set together.
pub uninterp spec fn rules_fit(rules: Seq<Seq<char>>) -> bool;

/// Whether rules leave a path out, or one of the directories that it is in.
pub uninterp spec fn rules_ignore(rules: Seq<Seq<char>>, path: Seq<char>, is_dir: bool) -> bool;

/// `GitignoreBuilder::new` for the current directory holds no rules.
#[verifier::external_body]
fn new_rules() -> (b: GitignoreBuilder)
    ensures
        added_rules(b) == Seq::<Seq<char>>::empty(),
{
    GitignoreBuilder::new(".")
}

/// `GitignoreBuilder::add_line` adds a rule; a line that is none adds
/// nothing.
#[verifier::external_body]
fn add_rule(b: &mut GitignoreBuilder, line: &str) -> (r: bool)
    ensures
        r == is_rule(line@),
        added_rules(*final(b)) == if r {
            added_rules(*old(b)).push(line@)
        } else {
            added_rules(*old(b))
        },
{
    b.add_line(None, line).is_ok()
}

/// `GitignoreBuilder::build` gives the set of the rules added, if they make
/// one.
#[verifier::external_body]
fn build_rules(b: &GitignoreBuilder) -> (r: Option<Gitignore>)
    ensures
        match r {
            Some(g) => rules_fit(added_rules(*b)) && rules_in(g) == added_rules(*b),
            None => !rules_fit(added_rules(*b)),
        },
{
    b.build().ok()
}

/// `Gitignore::empty` has no rules.
#[verifier::external_body]
fn no_rules() -> (g: Gitignore)
    ensures
        rules_in(g) == Seq::<Seq<char>>::empty(),
{
    Gitignore::empty()
}

/// Whether a path has no root on any platform: no separator in front, nor
/// behind a drive.
pub open spec fn no_root(path: Seq<char>) -> bool {
    &&& path.len() > 0 ==> path[0] != '/' && path[0] != '\\'
    &&& path.len() > 2 && path[1] == ':' ==> path[2] != '/' && path[2] != '\\'
}

/// A path without a `./` in front.
pub open spec fn without_dot(path: Seq<char>) -> Seq<char> {
    if path.len() > 1 && path[0] == '.' && path[1] == '/' {
        path.skip(2)
    } else {
        path
    }
}

/// Whether a path is below the root: without a root of its own, also when
/// the `./` in front is taken off.
pub open spec fn is_relative(path: Seq<char>) -> bool {
    no_root(path) && no_root(without_dot(path))
}

fn has_no_root(path: &Vec<char>) -> (r: bool)
    ensures
        r == no_root(path@),
{
    let n: usize = path.len();
    let front = n > 0 && (path[0] == '/' || path[0] == '\\');
    let drive = n > 2 && path[1] == ':' && (path[2] == '/' || path[2] == '\\');
    !front && !drive
}

/// Whether a path is one that the ignore rules can be asked about: below the
/// root, without a root of its own.
pub fn is_below(path: &str) -> (r: bool)
    ensures
        r == is_relative(path@),
{
    let all = chars_of(path);
    if !has_no_root(&all) {
        return false;
    }
    let n: usize = all.len();
    if n > 1 && all[0] == '.' && all[1] == '/' {
        let rest = slice_of(&all, 2, n);
        assert(rest@ =~= all@.skip(2));
        has_no_root(&rest)
    } else {
        true
    }
}

/// `Gitignore::matched_path_or_any_parents`, and whether that says to leave
/// the path out. It takes a `./` off the front, and then relative paths only.
#[verifier::external_body]
fn ignored_by_rules(g: &Gitignore, path: &str, is_dir: bool) -> (r: bool)
    requires
        is_relative(path@),
    ensures
        r == rules_ignore(rules_in(*g), path@, is_dir),
{
    g.matched_path_or_any_parents(path, is_dir).is_ignore()
}

/// The lines of a file from `from` on, without what ends them: a line feed,
/// or a carriage return and a line feed.
pub open spec fn file_lines(v: Seq<u8>, from: int) -> Seq<Seq<u8>>
    decreases v.len() + 1 - from,
{
    if from < 0 || from >= v.len() {
        Seq::empty()
    } else {
        proof {
            lemma_line_end(v, from);
        }
        let end = line_end(v, from);
        seq![v.subrange(from, text_end(v, from, end))] + file_lines(v, end + 1)
    }
}

/// Where the text of the line from `from` to `end` ends.
pub open spec fn text_end(v: Seq<u8>, from: int, end: int) -> int {
    if from < end && end < v.len() && v[end - 1] == 13 {
        end - 1
    } else {
        end
    }
}

/// The text of the line with the index `i`; the first is without byte order
/// marks in front.
pub open spec fn text_of(line: Seq<u8>, i: int) -> Seq<char> {
    if i == 0 {
        without_mark(decode_utf8(line))
    } else {
        decode_utf8(line)
    }
}

/// The first `n` lines as text, up to the first that is not UTF-8.
pub open spec fn readable(lines: Seq<Seq<u8>>, n: int) -> Seq<Seq<char>>
    decreases n,
{
    if n <= 0 {
        Seq::empty()
    } else {
        let before = readable(lines, n - 1);
        if before.len() == n - 1 && valid_utf8(lines[n - 1]) {
            before.push(text_of(lines[n - 1], n - 1))
        } else {
            before
        }
    }
}

proof fn lemma_readable_stops(lines: Seq<Seq<u8>>, k: int, n: int)
    requires
        0 <= k < n <= lines.len(),
        !valid_utf8(lines[k]),
        readable(lines, k).len() == k,
    ensures
        readable(lines, n) == readable(lines, k),
    decreases n,
{
    if n > k + 1 {
        lemma_readable_stops(lines, k, n - 1);
    }
}

/// The first `n` lines that are rules.
pub open spec fn rules_among(lines: Seq<Seq<char>>, n: int) -> Seq<Seq<char>>
    decreases n,
{
    if n <= 0 {
        Seq::empty()
    } else if is_rule(lines[n - 1]) {
        rules_among(lines, n - 1).push(lines[n - 1])
    } else {
        rules_among(lines, n - 1)
    }
}

/// The rules of an ignore file; none when they do not fit together.
pub open spec fn file_rules(file: Seq<u8>) -> Seq<Seq<char>> {
    let lines = file_lines(file, 0);
    let texts = readable(lines, lines.len() as int);
    let rules = rules_among(texts, texts.len() as int);
    if rules_fit(rules) {
        rules
    } else {
        Seq::empty()
    }
}

/// A text without the byte order marks in front.
pub open spec fn without_mark(s: Seq<char>) -> Seq<char>
    decreases s.len(),
{
    if s.len() > 0 && s[0] == '\u{feff}' {
        without_mark(s.drop_first())
    } else {
        s
    }
}

fn marks_in_front(s: &Vec<char>) -> (n: usize)
    ensures
        n <= s@.len(),
        s@.skip(n as int) == without_mark(s@),
{
    let mut n: usize = 0;
    assert(s@.skip(0) =~= s@);
    while n < s.len()
        invariant
            n <= s@.len(),
            without_mark(s@.skip(n as int)) == without_mark(s@),
        decreases s@.len() - n,
    {
        let ghost rest = s@.skip(n as int);
        assert(rest[0] == s@[n as int]);
        if s[n] != '\u{feff}' {
            return n;
        }
        assert(rest.drop_first() =~= s@.skip(n as int + 1));
        n = n + 1;
    }
    n
}

/// Adds a line of an ignore file, the first without byte order marks.
fn add_line(b: &mut GitignoreBuilder, line: &str, first: bool)
    ensures
        ({
            let text = if first {
                without_mark(line@)
            } else {
                line@
            };
            added_rules(*final(b)) == if is_rule(text) {
                added_rules(*old(b)).push(text)
            } else {
                added_rules(*old(b))
            }
        }),
{
    if first {
        let all = chars_of(line);
        let start: usize = marks_in_front(&all);
        let end: usize = all.len();
        let rest = slice_of(&all, start, end);
        assert(rest@ =~= without_mark(line@));
        let text = string_of(&rest);
        add_rule(b, text.as_str());
    } else {
        add_rule(b, line);
    }
}

proof fn lemma_rules_of_front(a: Seq<Seq<char>>, b: Seq<Seq<char>>, n: int)
    requires
        0 <= n <= a.len(),
        n <= b.len(),
        a.take(n) == b.take(n),
    ensures
        rules_among(a, n) == rules_among(b, n),
    decreases n,
{
    if n > 0 {
        assert(a.take(n - 1) =~= a.take(n).take(n - 1));
        assert(b.take(n - 1) =~= b.take(n).take(n - 1));
        assert(a.take(n)[n - 1] == b.take(n)[n - 1]);
        lemma_rules_of_front(a, b, n - 1);
    }
}

/// The rules of the root's ignore file, to filter events by. Reading stops at
/// a line that is not UTF-8.
pub fn build_ignore(file: &[u8]) -> (g: Gitignore)
    requires
        file@.len() < usize::MAX,
    ensures
        rules_in(g) == file_rules(file@),
{
    let ghost lines = file_lines(file@, 0);
    let ghost all = readable(lines, lines.len() as int);
    let ghost mut k: int = 0;
    let mut b = new_rules();
    let mut from: usize = 0;
    assert(lines.skip(0) =~= lines);
    while from < file.len()
        invariant_except_break
            file@.len() < usize::MAX,
            from <= file@.len() + 1,
            lines == file_lines(file@, 0),
            all == readable(lines, lines.len() as int),
            0 <= k <= lines.len(),
            k == 0 <==> from == 0,
            lines.skip(k) == file_lines(file@, from as int),
            readable(lines, k).len() == k,
            added_rules(b) == rules_among(readable(lines, k), k),
        ensures
            added_rules(b) == rules_among(all, all.len() as int),
        decreases file@.len() + 1 - from,
    {
        let end: usize = find_line_end(file, from);
        let stop: usize = if from < end && end < file.len() && file[end - 1] == 13 {
            end - 1
        } else {
            end
        };
        let line = slice_subrange(file, from, stop);
        let ghost rest = lines.skip(k);
        proof {
            assert(rest == seq![line@] + file_lines(file@, end + 1));
            assert(rest[0] == lines[k]);
            assert(lines.skip(k + 1) =~= rest.drop_first());
            assert(rest.drop_first() =~= file_lines(file@, end + 1));
        }
        match utf8_text(line) {
            Some(text) => {
                add_line(&mut b, text, from == 0);
                proof {
                    let now = readable(lines, k + 1);
                    assert(now == readable(lines, k).push(text_of(lines[k], k)));
                    assert(now.take(k) =~= readable(lines, k));
                    assert(readable(lines, k).take(k) =~= readable(lines, k));
                    lemma_rules_of_front(now, readable(lines, k), k);
                    k = k + 1;
                }
            },
            None => {
                proof {
                    lemma_readable_stops(lines, k, lines.len() as int);
                }
                break;
            },
        }
        from = end + 1;
        proof {
            if from >= file@.len() {
                assert(lines.skip(k).len() == 0);
            }
        }
    }
    match build_rules(&b) {
        Some(g) => g,
        None => no_rules(),
    }
}

/// Whether a path has a component `.git`.
pub open spec fn in_git(path: Seq<char>, from: int) -> bool
    decreases path.len() + 1 - from,
{
    if from < 0 || from > path.len() {
        false
    } else {
        let end = find_from(path, '/', from);
        if end < from || end > path.len() {
            false
        } else {
            path.subrange(from, end) == ".git"@ || in_git(path, end + 1)
        }
    }
}

/// True if an event path, relative to the root, should be ignored: ignored by
/// the rules or inside `.git`. Filtering is best-effort: a missed ignore only
/// costs a wasted reindex, never correctness.
pub fn is_ignored(g: &Gitignore, path: &str, is_dir: bool) -> (r: bool)
    requires
        is_relative(path@),
    ensures
        r == (in_git(path@, 0) || rules_ignore(rules_in(*g), path@, is_dir)),
{
    let s = chars_of(path);
    let mut from: usize = 0;
    loop
        invariant_except_break
            s@ == path@,
            from <= s@.len(),
            in_git(path@, 0) == in_git(path@, from as int),
        ensures
            !in_git(path@, 0),
        decreases s@.len() - from,
    {
        let end: usize = find_char(&s, '/', from);
        let part = string_of(&slice_of(&s, from, end));
        if same_text(part.as_str(), ".git") {
            return true;
        }
        if end >= s.len() {
            assert(!in_git(path@, end + 1));
            break;
        }
        from = end + 1;
    }
    ignored_by_rules(g, path, is_dir)
}

/// Whether the characters from `a` to `b` are a component of a path.
pub open spec fn is_component(path: Seq<char>, a: int, b: int) -> bool {
    &&& 0 <= a <= b <= path.len()
    &&& a == 0 || path[a - 1] == '/'
    &&& b == path.len() || path[b] == '/'
    &&& forall|k: int| a <= k < b ==> path[k] != '/'
}

proof fn lemma_find_slash(path: Seq<char>, from: int)
    requires
        0 <= from <= path.len(),
    ensures
        ({
            let end = find_from(path, '/', from);
            &&& from <= end <= path.len()
            &&& end == path.len() || path[end] == '/'
            &&& forall|k: int| from <= k < end ==> path[k] != '/'
        }),
    decreases path.len() - from,
{
    if from < path.len() && path[from] != '/' {
        lemma_find_slash(path, from + 1);
    }
}

proof fn lemma_in_git(path: Seq<char>, from: int)
    requires
        0 <= from <= path.len() + 1,
        from == 0 || path.len() < from || path[from - 1] == '/',
    ensures
        in_git(path, from) <==> exists|a: int, b: int|
            from <= a && #[trigger] is_component(path, a, b) && path.subrange(a, b) == ".git"@,
    decreases path.len() + 1 - from,
{
    if from <= path.len() {
        let end = find_from(path, '/', from);
        lemma_find_slash(path, from);
        assert(is_component(path, from, end));
        lemma_in_git(path, end + 1);
        if in_git(path, from) && path.subrange(from, end) != ".git"@ {
            let (a, b) = choose|a: int, b: int|
                end + 1 <= a && #[trigger] is_component(path, a, b) && path.subrange(a, b)
                    == ".git"@;
            assert(from <= a && is_component(path, a, b));
        }
        assert forall|a: int, b: int|
            from <= a && #[trigger] is_component(path, a, b) && path.subrange(a, b)
                == ".git"@ implies in_git(path, from) by {
            if a <= end {
                if a > from {
                    assert(path[a - 1] == '/');
                    assert(a - 1 == end);
                }
                if b < end {
                    assert(path[b] != '/');
                }
                assert(a == from && b == end);
            } else {
                assert(in_git(path, end + 1));
            }
        }
    }
}

/// What is in `.git` is left out: a path one of whose components has that
/// name, and no other.
pub proof fn law_git_is_a_component(path: Seq<char>)
    ensures
        in_git(path, 0) <==> exists|a: int, b: int| #[trigger]
            is_component(path, a, b) && path.subrange(a, b) == ".git"@,
{
    lemma_in_git(path, 0);
    if in_git(path, 0) {
        let (a, b) = choose|a: int, b: int|
            0 <= a && #[trigger] is_component(path, a, b) && path.subrange(a, b) == ".git"@;
        assert(is_component(path, a, b) && path.subrange(a, b) == ".git"@);
    }
}

proof fn lemma_lines_of_rest(v: Seq<u8>, rest: Seq<u8>, by: int, from: int)
    requires
        0 <= by <= v.len(),
        rest == v.skip(by),
        0 <= from,
    ensures
        file_lines(rest, from) == file_lines(v, by + from),
    decreases rest.len() + 1 - from,
{
    if from < rest.len() {
        lemma_line_end(v, by + from);
        lemma_line_end(rest, from);
        lemma_line_end_of_rest(v, rest, by, from);
        let end = line_end(rest, from);
        if from < end && end < rest.len() {
            assert(rest[end - 1] == v[by + end - 1]);
        }
        assert(rest.subrange(from, text_end(rest, from, end)) =~= v.subrange(
            by + from,
            text_end(v, by + from, by + end),
        ));
        lemma_lines_of_rest(v, rest, by, end + 1);
    }
}

proof fn lemma_line_end_of_rest(v: Seq<u8>, rest: Seq<u8>, by: int, from: int)
    requires
        0 <= by <= v.len(),
        rest == v.skip(by),
        0 <= from <= rest.len(),
    ensures
        line_end(v, by + from) == by + line_end(rest, from),
    decreases rest.len() - from,
{
    if from < rest.len() {
        assert(rest[from] == v[by + from]);
        if rest[from] != 10 {
            lemma_line_end_of_rest(v, rest, by, from + 1);
        }
    }
}

proof fn lemma_line_end_at(v: Seq<u8>, from: int, at: int)
    requires
        0 <= from <= at < v.len(),
        v[at] == 10,
        forall|k: int| from <= k < at ==> v[k] != 10,
    ensures
        line_end(v, from) == at,
    decreases at - from,
{
    if from < at {
        lemma_line_end_at(v, from + 1, at);
    }
}

/// The lines of an ignore file are what stands between its line feeds; a
/// carriage return in front of one is no part of the line.
pub proof fn law_ignore_file_is_read_by_line(line: Seq<u8>, rest: Seq<u8>)
    requires
        forall|k: int| 0 <= k < line.len() ==> line[k] != 10,
        line.len() > 0 ==> line.last() != 13,
    ensures
        file_lines(line + seq![10u8] + rest, 0) == seq![line] + file_lines(rest, 0),
        file_lines(line + seq![13u8, 10] + rest, 0) == seq![line] + file_lines(rest, 0),
{
    let n = line.len() as int;
    let v = line + seq![10u8] + rest;
    lemma_line_end_at(v, 0, n);
    assert(v.skip(n + 1) =~= rest);
    lemma_lines_of_rest(v, rest, n + 1, 0);
    if n > 0 {
        assert(v[n - 1] == line.last());
    }
    assert(v.subrange(0, n) =~= line);
    let w = line + seq![13u8, 10] + rest;
    lemma_line_end_at(w, 0, n + 1);
    assert(w.skip(n + 2) =~= rest);
    lemma_lines_of_rest(w, rest, n + 2, 0);
    assert(w[n] == 13);
    assert(w.subrange(0, n) =~= line);
}

proof fn lemma_rules_among(lines: Seq<Seq<char>>, n: int)
    requires
        0 <= n <= lines.len(),
    ensures
        rules_among(lines, n) == lines.take(n).filter(|s: Seq<char>| is_rule(s)),
    decreases n,
{
    reveal(Seq::filter);
    if n > 0 {
        lemma_rules_among(lines, n - 1);
        assert(lines.take(n).drop_last() =~= lines.take(n - 1));
        assert(lines.take(n).last() == lines[n - 1]);
    }
}

proof fn lemma_readable(lines: Seq<Seq<u8>>, n: int)
    requires
        0 <= n <= lines.len(),
        forall|i: int| 0 <= i < n ==> valid_utf8(#[trigger] lines[i]),
    ensures
        readable(lines, n).len() == n,
        forall|i: int|
            0 <= i < n ==> (#[trigger] readable(lines, n)[i]) == if i == 0 {
                without_mark(decode_utf8(lines[i]))
            } else {
                decode_utf8(lines[i])
            },
    decreases n,
{
    if n > 0 {
        assert(valid_utf8(lines[n - 1]));
        lemma_readable(lines, n - 1);
    }
}

/// The rules of an ignore file in UTF-8 are those of its lines that are rules,
/// in order, the first line without byte order marks; none where they do not
/// fit together.
pub proof fn law_rules_are_the_lines(file: Seq<u8>)
    requires
        forall|i: int|
            0 <= i < file_lines(file, 0).len() ==> valid_utf8(#[trigger] file_lines(file, 0)[i]),
    ensures
        ({
            let lines = file_lines(file, 0);
            let texts = Seq::new(
                lines.len(),
                |i: int|
                    if i == 0 {
                        without_mark(decode_utf8(lines[i]))
                    } else {
                        decode_utf8(lines[i])
                    },
            );
            let rules = texts.filter(|s: Seq<char>| is_rule(s));
            file_rules(file) == if rules_fit(rules) {
                rules
            } else {
                Seq::empty()
            }
        }),
{
    let lines = file_lines(file, 0);
    let n = lines.len() as int;
    let read = readable(lines, n);
    lemma_readable(lines, n);
    let texts = Seq::new(
        lines.len(),
        |i: int|
            if i == 0 {
                without_mark(decode_utf8(lines[i]))
            } else {
                decode_utf8(lines[i])
            },
    );
    assert(read =~= texts);
    lemma_rules_among(read, n);
    assert(read.take(n) =~= read);
}

} // verus!
