//! Where indexes live: one file per indexed root, under the user cache dir,
//! named by a hash of the canonical root path. Repos stay untouched.

use crate::numbers::{
    all_digits, decimal, hex, is_digit, law_decimal_reads_back, number_in, parse_u64, push_decimal,
    push_hex,
};
use crate::text::{
    begins, chars_of, ends, ends_with, find_char, find_from, forward, forward_slashes, lemma_find,
    push_str, slice_of, starts_with, string_of, trim, trimmed,
};
use crate::trigram::hex_digit;
use vstd::prelude::*;
use vstd::utf8::encode_utf8;

verus! {

/// A live watcher is considered fresh if its heartbeat is newer than this.
/// `grix watch` refreshes the heartbeat well within this window.
pub const WATCH_FRESH_MS: u64 = 30000;

/// Leftover temps from a crashed build are collected once they are this old.
/// Far longer than any live build, so an in-flight sibling is never touched.
pub const TEMP_MAX_AGE_SECS: u64 = 86400;

/// A path with a name behind it.
pub open spec fn joined(dir: Seq<char>, name: Seq<char>) -> Seq<char> {
    if dir.len() == 0 || dir.last() == '/' {
        dir + name
    } else {
        dir.push('/') + name
    }
}

fn join(dir: &str, name: &str) -> (r: String)
    ensures
        r@ == joined(dir@, name@),
{
    let mut out = chars_of(dir);
    if out.len() > 0 && out[out.len() - 1] != '/' {
        out.push('/');
    }
    push_str(&mut out, name);
    assert(out@ =~= joined(dir@, name@));
    string_of(&out)
}

/// Where indexes live, from what the environment says: the data directory
/// itself, the local application data directory, the cache directory, the
/// home directory.
pub open spec fn data_dir_of(
    data: Option<String>,
    local: Option<String>,
    cache: Option<String>,
    home: Option<String>,
) -> Option<Seq<char>> {
    match (data, local, cache, home) {
        (Some(d), _, _, _) => Some(d@),
        (None, Some(d), _, _) => Some(joined(d@, "grix"@)),
        (None, None, Some(d), _) => Some(joined(d@, "grix"@)),
        (None, None, None, Some(d)) => Some(joined(joined(d@, ".cache"@), "grix"@)),
        _ => None,
    }
}

pub fn data_dir(
    data: Option<String>,
    local: Option<String>,
    cache: Option<String>,
    home: Option<String>,
) -> (r: Result<String, &'static str>)
    ensures
        match r {
            Ok(dir) => data_dir_of(data, local, cache, home) == Some(dir@),
            Err(e) => data_dir_of(data, local, cache, home) is None && e@
                == "cannot determine a cache directory (LOCALAPPDATA/XDG_CACHE_HOME/HOME unset)"@,
        },
{
    if let Some(d) = data {
        return Ok(d);
    }
    if let Some(d) = local {
        return Ok(join(d.as_str(), "grix"));
    }
    if let Some(d) = cache {
        return Ok(join(d.as_str(), "grix"));
    }
    if let Some(d) = home {
        let cache = join(d.as_str(), ".cache");
        return Ok(join(cache.as_str(), "grix"));
    }
    Err("cannot determine a cache directory (LOCALAPPDATA/XDG_CACHE_HOME/HOME unset)")
}

/// The 64-bit FNV-1a hash.
pub open spec fn fnv(bytes: Seq<u8>) -> u64
    decreases bytes.len(),
{
    if bytes.len() == 0 {
        0xcbf2_9ce4_8422_2325
    } else {
        (fnv(bytes.drop_last()) ^ (bytes.last() as u64)).wrapping_mul(0x0000_0100_0000_01b3)
    }
}

pub fn fnv1a(bytes: &[u8]) -> (h: u64)
    ensures
        h == fnv(bytes@),
{
    let mut h: u64 = 0xcbf2_9ce4_8422_2325;
    assert(bytes@.take(0) =~= Seq::<u8>::empty());
    for i in 0..bytes.len()
        invariant
            h == fnv(bytes@.take(i as int)),
    {
        assert(bytes@.take(i as int + 1).drop_last() =~= bytes@.take(i as int));
        assert(bytes@.take(i as int + 1).last() == bytes@[i as int]);
        h = (h ^ (bytes[i] as u64)).wrapping_mul(0x0000_0100_0000_01b3);
    }
    assert(bytes@.take(bytes@.len() as int) =~= bytes@);
    h
}

/// The key of a root: its path with forward slashes, hashed.
pub open spec fn key_of_root(root: Seq<char>) -> u64 {
    fnv(encode_utf8(forward(root)))
}

pub fn root_key(root: &str) -> (h: u64)
    ensures
        h == key_of_root(root@),
{
    let s = forward_slashes(root);
    fnv1a(s.as_str().as_bytes())
}

/// Roots that differ in the direction of their slashes have one key.
pub proof fn law_key_ignores_slash_direction(a: Seq<char>, b: Seq<char>)
    requires
        forward(a) == forward(b),
    ensures
        key_of_root(a) == key_of_root(b),
{
}

/// The name of a root's index file.
pub open spec fn index_name(root: Seq<char>) -> Seq<char> {
    hex(key_of_root(root) as nat, 16) + ".gix"@
}

/// Index file path for a canonical root.
pub fn index_path(dir: &str, root: &str) -> (r: String)
    ensures
        r@ == joined(dir@, index_name(root@)),
{
    let mut name: Vec<char> = Vec::new();
    push_hex(&mut name, root_key(root), 16);
    push_str(&mut name, ".gix");
    assert(name@ =~= index_name(root@));
    let name = string_of(&name);
    join(dir, name.as_str())
}

/// The first of the given places that is taken.
pub open spec fn first_taken(taken: Seq<bool>, i: int) -> Option<int>
    decreases taken.len() - i,
{
    if i < 0 || i >= taken.len() {
        None
    } else if taken[i] {
        Some(i)
    } else {
        first_taken(taken, i + 1)
    }
}

/// The nearest ancestor that has an index: `ancestors` from the start
/// upwards, `present` for each whether its index file exists. Returns (index
/// file, indexed root).
pub fn find_index_upward(dir: &str, ancestors: &Vec<String>, present: &Vec<bool>) -> (r: Option<
    (String, String),
>)
    requires
        ancestors@.len() == present@.len(),
    ensures
        match r {
            Some((idx, root)) => first_taken(present@, 0) matches Some(i) && root@
                == ancestors@[i]@ && idx@ == joined(dir@, index_name(ancestors@[i]@)),
            None => first_taken(present@, 0) is None,
        },
{
    for i in 0..present.len()
        invariant
            ancestors@.len() == present@.len(),
            first_taken(present@, 0) == first_taken(present@, i as int),
    {
        if present[i] {
            let root = ancestors[i].clone();
            let idx = index_path(dir, root.as_str());
            return Some((idx, root));
        }
    }
    None
}

/// The length of a path without what does not count at its end: separators
/// and `.` components.
pub open spec fn counted_len(p: Seq<char>) -> int
    decreases p.len(),
{
    if p.len() > 0 && p.last() == '/' {
        counted_len(p.drop_last())
    } else if p.len() > 1 && p.last() == '.' && p[p.len() - 2] == '/' {
        counted_len(p.drop_last())
    } else {
        p.len() as int
    }
}

/// Where the last component of a path begins.
pub open spec fn last_start(p: Seq<char>) -> int
    decreases p.len(),
{
    if p.len() == 0 || p.last() == '/' {
        p.len() as int
    } else {
        last_start(p.drop_last())
    }
}

/// The length of a file name without its extension.
pub open spec fn stem_len(name: Seq<char>, n: int) -> int
    decreases n,
{
    if n <= 1 {
        name.len() as int
    } else if name[n - 1] == '.' {
        n - 1
    } else {
        stem_len(name, n - 1)
    }
}

/// A path with another extension. One without a file name stays as it is.
pub open spec fn with_extension(p: Seq<char>, ext: Seq<char>) -> Seq<char> {
    let whole = p.take(counted_len(p));
    let start = last_start(whole);
    let name = whole.skip(start);
    if name.len() == 0 || name == seq!['.'] || name == seq!['.', '.'] {
        p
    } else {
        p.take(start + stem_len(name, name.len() as int)).push('.') + ext
    }
}

fn counted(p: &Vec<char>) -> (r: usize)
    ensures
        r == counted_len(p@),
        r <= p@.len(),
{
    let mut n: usize = p.len();
    assert(p@.take(n as int) =~= p@);
    while n > 0
        invariant
            n <= p@.len(),
            counted_len(p@) == counted_len(p@.take(n as int)),
        decreases n,
    {
        let ghost here = p@.take(n as int);
        assert(here.last() == p@[n - 1]);
        if p[n - 1] == '/' {
        } else if n > 1 && p[n - 1] == '.' && p[n - 2] == '/' {
            assert(here[n - 2] == '/');
        } else {
            return n;
        }
        assert(here.drop_last() =~= p@.take(n - 1));
        n = n - 1;
    }
    0
}

fn name_start(p: &Vec<char>, end: usize) -> (r: usize)
    requires
        end <= p@.len(),
    ensures
        r == last_start(p@.take(end as int)),
        r <= end,
{
    let mut n: usize = end;
    while n > 0
        invariant
            n <= end <= p@.len(),
            last_start(p@.take(end as int)) == last_start(p@.take(n as int)),
        decreases n,
    {
        let ghost here = p@.take(n as int);
        assert(here.last() == p@[n - 1]);
        if p[n - 1] == '/' {
            return n;
        }
        assert(here.drop_last() =~= p@.take(n - 1));
        n = n - 1;
    }
    0
}

fn stem_of(name: &Vec<char>) -> (r: usize)
    ensures
        r == stem_len(name@, name@.len() as int),
        r <= name@.len(),
{
    let mut n: usize = name.len();
    while n > 1
        invariant
            n <= name@.len(),
            stem_len(name@, name@.len() as int) == stem_len(name@, n as int),
        decreases n,
    {
        if name[n - 1] == '.' {
            return n - 1;
        }
        n = n - 1;
    }
    name.len()
}

fn set_extension(path: &str, ext: &str) -> (r: String)
    ensures
        r@ == with_extension(path@, ext@),
{
    let p = chars_of(path);
    let end: usize = counted(&p);
    let start: usize = name_start(&p, end);
    let name = slice_of(&p, start, end);
    let ghost whole = p@.take(end as int);
    assert(name@ =~= whole.skip(start as int));
    let none = name.len() == 0 || (name.len() == 1 && name[0] == '.') || (name.len() == 2 && name[0]
        == '.' && name[1] == '.');
    proof {
        if name@.len() == 1 && name@[0] == '.' {
            assert(name@ =~= seq!['.']);
        }
        if name@.len() == 2 && name@[0] == '.' && name@[1] == '.' {
            assert(name@ =~= seq!['.', '.']);
        }
    }
    if none {
        return string_of(&p);
    }
    let stem: usize = stem_of(&name);
    assert(start + stem <= p.len());
    let mut out = slice_of(&p, 0, start + stem);
    assert(out@ =~= p@.take(start + stem));
    out.push('.');
    push_str(&mut out, ext);
    string_of(&out)
}

/// The overlay of an index: a sidecar with what changed since the base was
/// built.
pub fn overlay_path(index_path: &str) -> (r: String)
    ensures
        r@ == with_extension(index_path@, "gixo"@),
{
    set_extension(index_path, "gixo")
}

/// The heartbeat of an index's watcher.
pub fn watch_marker_path(index_path: &str) -> (r: String)
    ensures
        r@ == with_extension(index_path@, "watch"@),
{
    set_extension(index_path, "watch")
}

/// `<index file>.<kind>.<tag>.tmp` next to the index: same directory, so the
/// final rename stays on one volume and atomic.
pub fn temp_sibling(index_path: &str, kind: &str, tag: &str) -> (r: String)
    ensures
        r@ == index_path@ + "."@ + kind@ + "."@ + tag@ + ".tmp"@,
{
    let mut out = chars_of(index_path);
    push_str(&mut out, ".");
    push_str(&mut out, kind);
    push_str(&mut out, ".");
    push_str(&mut out, tag);
    push_str(&mut out, ".tmp");
    string_of(&out)
}

/// Tag making temp names unique per build attempt: the process and a count
/// of its attempts. Concurrent builds of the same index must never share a
/// temp path; with unique names, whichever build renames last wins with a
/// complete file.
pub fn temp_tag(pid: u32, seq: u64) -> (r: String)
    ensures
        r@ == decimal(pid as nat) + "-"@ + decimal(seq as nat),
{
    let mut out: Vec<char> = Vec::new();
    push_decimal(&mut out, pid as u64);
    push_str(&mut out, "-");
    push_decimal(&mut out, seq);
    assert(out@ =~= decimal(pid as nat) + "-"@ + decimal(seq as nat));
    string_of(&out)
}

/// Whether a file is a temp that a crashed build of the index left behind:
/// named `<index file>.*.tmp` and old enough. One from the future stays.
pub fn is_stale_temp(index_file: &str, name: &str, age_secs: Option<u64>, max_age_secs: u64) -> (r:
    bool)
    ensures
        r == (begins(name@, index_file@.push('.')) && ends(name@, ".tmp"@) && (
        age_secs matches Some(age) && age >= max_age_secs)),
{
    let name = chars_of(name);
    let mut prefix = chars_of(index_file);
    prefix.push('.');
    let suffix = chars_of(".tmp");
    if !starts_with(&name, &prefix) || !ends_with(&name, &suffix) {
        return false;
    }
    match age_secs {
        Some(age) => age >= max_age_secs,
        None => false,
    }
}

/// What a watcher writes into its marker: `pid\nmillis\n`.
pub fn heartbeat(pid: u32, now: u64) -> (r: String)
    ensures
        r@ == beat(pid, now),
{
    let mut out: Vec<char> = Vec::new();
    push_decimal(&mut out, pid as u64);
    out.push('\n');
    push_decimal(&mut out, now);
    out.push('\n');
    assert(out@ =~= beat(pid, now));
    string_of(&out)
}

pub open spec fn beat(pid: u32, now: u64) -> Seq<char> {
    (decimal(pid as nat).push('\n') + decimal(now as nat)).push('\n')
}

/// The second line of a text, if it has one.
pub open spec fn second_line(s: Seq<char>) -> Option<Seq<char>> {
    let first = find_from(s, '\n', 0);
    if first + 1 >= s.len() {
        None
    } else {
        Some(s.subrange(first + 1, find_from(s, '\n', first + 1)))
    }
}

/// The time of a marker's heartbeat.
pub open spec fn beat_time(marker: Seq<char>) -> Option<nat> {
    match second_line(marker) {
        Some(line) => number_in(trimmed(line), u64::MAX as nat),
        None => None,
    }
}

/// Whether a heartbeat is fresh at a time.
pub open spec fn is_fresh(marker: Seq<char>, now: u64) -> bool {
    beat_time(marker) matches Some(hb) && hb <= now && now - hb < WATCH_FRESH_MS
}

proof fn lemma_beat(pid: u32, t: u64)
    ensures
        second_line(beat(pid, t)) == Some(decimal(t as nat)),
{
    let s = beat(pid, t);
    let a = decimal(pid as nat);
    let b = decimal(t as nat);
    law_decimal_reads_back(pid as nat);
    law_decimal_reads_back(t as nat);
    assert forall|i: int| 0 <= i < a.len() implies s[i] != '\n' by {
        assert(s[i] == a[i] && is_digit(a[i]));
    }
    lemma_find(s, '\n', 0, a.len() as int);
    let from = a.len() + 1;
    assert forall|i: int| from <= i < from + b.len() implies s[i] != '\n' by {
        assert(s[i] == b[i - from] && is_digit(b[i - from]));
    }
    lemma_find(s, '\n', from as int, (from + b.len()) as int);
    assert(s.subrange(from as int, (from + b.len()) as int) =~= b);
}

/// Is the marker's heartbeat fresh relative to `now`? One that was written
/// as such is for as long as the window lasts.
pub fn watcher_is_live_at(marker: &str, now: u64) -> (r: bool)
    ensures
        r == is_fresh(marker@, now),
        forall|pid: u32, t: u64|
            marker@ == #[trigger] beat(pid, t) ==> r == (t <= now && now - t < WATCH_FRESH_MS),
{
    let s = chars_of(marker);
    proof {
        assert forall|pid: u32, t: u64| marker@ == #[trigger] beat(pid, t) implies second_line(
            marker@,
        ) == Some(decimal(t as nat)) && all_digits(decimal(t as nat)) && number_in(
            decimal(t as nat),
            u64::MAX as nat,
        ) == Some(t as nat) by {
            lemma_beat(pid, t);
            law_decimal_reads_back(t as nat);
        }
    }
    let first: usize = find_char(&s, '\n', 0);
    if first >= s.len() || first + 1 >= s.len() {
        return false;
    }
    let end: usize = find_char(&s, '\n', first + 1);
    let line = slice_of(&s, first + 1, end);
    assert(second_line(marker@) == Some(line@));
    match parse_u64(&trim(&line)) {
        Some(hb) => now >= hb && now - hb < WATCH_FRESH_MS,
        None => false,
    }
}

/// The process that a marker names.
pub open spec fn beat_pid(marker: Seq<char>) -> Option<nat> {
    number_in(trimmed(marker.take(find_from(marker, '\n', 0))), u64::MAX as nat)
}

/// Is the marker fresh, and not that of process `pid`? One that another
/// process wrote is for thirty seconds.
pub fn watcher_is_live_other_at(marker: &str, now: u64, pid: u32) -> (r: bool)
    ensures
        r == (is_fresh(marker@, now) && beat_pid(marker@) != Some(pid as nat)),
        forall|p: u32, t: u64|
            marker@ == #[trigger] beat(p, t) ==> r == (t <= now && now - t < 30000 && p != pid),
{
    if !watcher_is_live_at(marker, now) {
        return false;
    }
    let s = chars_of(marker);
    let first: usize = find_char(&s, '\n', 0);
    let line = slice_of(&s, 0, first);
    assert(line@ =~= s@.take(first as int));
    proof {
        assert forall|p: u32, t: u64| marker@ == #[trigger] beat(p, t) implies line@ == decimal(
            p as nat,
        ) && all_digits(line@) && number_in(line@, u64::MAX as nat) == Some(p as nat) by {
            lemma_beat_pid(p, t);
            law_decimal_reads_back(p as nat);
        }
    }
    match parse_u64(&trim(&line)) {
        Some(owner) => owner != pid as u64,
        None => true,
    }
}

proof fn lemma_beat_pid(pid: u32, t: u64)
    ensures
        beat(pid, t).take(find_from(beat(pid, t), '\n', 0)) == decimal(pid as nat),
{
    let s = beat(pid, t);
    let a = decimal(pid as nat);
    law_decimal_reads_back(pid as nat);
    assert forall|i: int| 0 <= i < a.len() implies s[i] != '\n' by {
        assert(s[i] == a[i] && is_digit(a[i]));
    }
    lemma_find(s, '\n', 0, a.len() as int);
    assert(s.take(a.len() as int) =~= a);
}

proof fn lemma_first_taken(taken: Seq<bool>, i: int)
    requires
        0 <= i <= taken.len(),
    ensures
        match first_taken(taken, i) {
            Some(k) => i <= k < taken.len() && taken[k] && forall|j: int|
                i <= j < k ==> !(#[trigger] taken[j]),
            None => forall|j: int| i <= j < taken.len() ==> !(#[trigger] taken[j]),
        },
    decreases taken.len() - i,
{
    if i < taken.len() && !taken[i] {
        lemma_first_taken(taken, i + 1);
    }
}

/// The index that is found upwards is the nearest one: none of those between
/// has one, and none is found only where no ancestor has one.
pub proof fn law_nearest_index_is_found(taken: Seq<bool>)
    ensures
        match first_taken(taken, 0) {
            Some(k) => 0 <= k < taken.len() && taken[k] && forall|j: int|
                0 <= j < k ==> !(#[trigger] taken[j]),
            None => forall|j: int| 0 <= j < taken.len() ==> !(#[trigger] taken[j]),
        },
{
    lemma_first_taken(taken, 0);
}

proof fn lemma_hex_differs(x: nat, y: nat, n: nat)
    requires
        hex(x, n) == hex(y, n),
        n > 0,
    ensures
        x % 16 == y % 16,
        hex(x / 16, (n - 1) as nat) == hex(y / 16, (n - 1) as nat),
{
    let (a, b) = (hex(x, n), hex(y, n));
    assert(a.drop_last() =~= hex(x / 16, (n - 1) as nat));
    assert(b.drop_last() =~= hex(y / 16, (n - 1) as nat));
    assert(a.last() == hex_digit((x % 16) as int));
    assert(b.last() == hex_digit((y % 16) as int));
}

/// A power of sixteen.
pub open spec fn power16(n: nat) -> nat
    decreases n,
{
    if n == 0 {
        1
    } else {
        16 * power16((n - 1) as nat)
    }
}

proof fn lemma_hex_injective(x: nat, y: nat, n: nat)
    requires
        hex(x, n) == hex(y, n),
        x < power16(n),
        y < power16(n),
    ensures
        x == y,
    decreases n,
{
    if n > 0 {
        lemma_hex_differs(x, y, n);
        lemma_hex_injective(x / 16, y / 16, (n - 1) as nat);
    }
}

/// The index file of a root lies in the data directory, and roots have one
/// index file only where they have one key.
pub proof fn law_index_file_is_by_key(a: Seq<char>, b: Seq<char>)
    ensures
        index_name(a) == index_name(b) <==> key_of_root(a) == key_of_root(b),
        index_name(a).len() == 20,
        index_name(a).skip(16) == ".gix"@,
{
    reveal_strlit(".gix");
    let (x, y) = (key_of_root(a) as nat, key_of_root(b) as nat);
    lemma_hex_len(x, 16);
    lemma_hex_len(y, 16);
    assert(index_name(a).skip(16) =~= ".gix"@);
    if index_name(a) == index_name(b) {
        assert(index_name(a).take(16) =~= hex(x, 16));
        assert(index_name(b).take(16) =~= hex(y, 16));
        reveal_with_fuel(power16, 17);
        assert(power16(16) == 0x1_0000_0000_0000_0000);
        lemma_hex_injective(x, y, 16);
    }
}

proof fn lemma_hex_len(x: nat, n: nat)
    ensures
        hex(x, n).len() == n,
    decreases n,
{
    if n > 0 {
        lemma_hex_len(x / 16, (n - 1) as nat);
    }
}

proof fn lemma_last_start(p: Seq<char>, at: int)
    requires
        0 <= at <= p.len(),
        at == 0 || p[at - 1] == '/',
        forall|k: int| at <= k < p.len() ==> p[k] != '/',
    ensures
        last_start(p) == at,
    decreases p.len(),
{
    if at < p.len() {
        lemma_last_start(p.drop_last(), at);
    } else if p.len() > 0 {
        assert(p.last() == '/');
    }
}

proof fn lemma_stem_len(name: Seq<char>, n: int, at: int)
    requires
        0 < at < n <= name.len(),
        name[at] == '.',
        forall|k: int| at < k < n ==> name[k] != '.',
    ensures
        stem_len(name, n) == at,
    decreases n,
{
    if at < n - 1 {
        lemma_stem_len(name, n - 1, at);
    }
}

/// The overlay and the marker of an index stand beside it: only what is behind
/// the last dot of the file name is another.
pub proof fn law_sidecar_has_another_extension(
    dir: Seq<char>,
    stem: Seq<char>,
    old_ext: Seq<char>,
    ext: Seq<char>,
)
    requires
        dir.len() == 0 || dir.last() == '/',
        stem.len() > 0 && old_ext.len() > 0,
        forall|k: int| 0 <= k < stem.len() ==> #[trigger] stem[k] != '/',
        forall|k: int| 0 <= k < old_ext.len() ==> #[trigger] old_ext[k] != '/' && old_ext[k] != '.',
    ensures
        with_extension(dir + stem + seq!['.'] + old_ext, ext) == dir + stem + seq!['.'] + ext,
{
    let p = dir + stem + seq!['.'] + old_ext;
    let (d, s) = (dir.len() as int, stem.len() as int);
    let name = stem + seq!['.'] + old_ext;
    assert(p.last() == old_ext.last());
    assert(counted_len(p) == p.len());
    assert(p.take(p.len() as int) =~= p);
    assert forall|k: int| d <= k < p.len() implies p[k] != '/' by {
        if k < d + s {
            assert(p[k] == stem[k - d]);
        } else if k > d + s {
            assert(p[k] == old_ext[k - d - s - 1]);
        }
    }
    if d > 0 {
        assert(p[d - 1] == dir.last());
    }
    lemma_last_start(p, d);
    assert(p.skip(d) =~= name);
    assert(name[s] == '.');
    assert forall|k: int| s < k < name.len() implies name[k] != '.' by {
        assert(name[k] == old_ext[k - s - 1]);
    }
    lemma_stem_len(name, name.len() as int, s);
    assert(name.last() == old_ext.last());
    assert(p.take(d + s).push('.') + ext =~= dir + stem + seq!['.'] + ext);
}

/// The hash of a text with one more byte is that of the text, mixed with the
/// byte and multiplied by the prime; that of no text is the offset.
pub proof fn law_hash_takes_one_byte_at_a_time(bytes: Seq<u8>, b: u8)
    ensures
        fnv(Seq::empty()) == 0xcbf2_9ce4_8422_2325,
        fnv(bytes.push(b)) == (fnv(bytes) ^ (b as u64)).wrapping_mul(0x100_0000_01b3),
{
    assert(bytes.push(b).drop_last() =~= bytes);
}

/// Indexes live where the environment says, and else in `grix` under the first
/// directory that is given, of the application data, the cache and the home;
/// under the home in `.cache`.
pub proof fn law_data_lives_in_the_first_directory(
    data: Option<String>,
    local: Option<String>,
    cache: Option<String>,
    home: Option<String>,
)
    requires
        local matches Some(d) ==> d@.len() > 0 && d@.last() != '/',
        cache matches Some(d) ==> d@.len() > 0 && d@.last() != '/',
        home matches Some(d) ==> d@.len() > 0 && d@.last() != '/',
    ensures
        data matches Some(d) ==> data_dir_of(data, local, cache, home) == Some(d@),
        data is None ==> (local matches Some(d) ==> data_dir_of(data, local, cache, home) == Some(
            d@ + "/grix"@,
        )),
        data is None && local is None ==> (cache matches Some(d) ==> data_dir_of(
            data,
            local,
            cache,
            home,
        ) == Some(d@ + "/grix"@)),
        data is None && local is None && cache is None ==> (home matches Some(d) ==> data_dir_of(
            data,
            local,
            cache,
            home,
        ) == Some(d@ + "/.cache/grix"@)),
        data is None && local is None && cache is None && home is None ==> data_dir_of(
            data,
            local,
            cache,
            home,
        ) is None,
{
    reveal_strlit("grix");
    reveal_strlit("/grix");
    reveal_strlit(".cache");
    reveal_strlit("/.cache/grix");
    if let Some(d) = local {
        assert(joined(d@, "grix"@) =~= d@ + "/grix"@);
    }
    if let Some(d) = cache {
        assert(joined(d@, "grix"@) =~= d@ + "/grix"@);
    }
    if let Some(d) = home {
        let c = joined(d@, ".cache"@);
        assert(c.last() == 'e');
        assert(joined(c, "grix"@) =~= d@ + "/.cache/grix"@);
    }
}

} // verus!
