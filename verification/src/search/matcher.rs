//! The pattern, compiled into the index query and the confirming regex.

use crate::plan::info::{plan_tree, planned};
use crate::plan::{Formula, Query};
use crate::search::lines::{
    find_line_end, lemma_line_end, line_end, ordered, rows, scan_spans, scanned, MatchLine,
    ScanMode,
};
use crate::search::options::{SearchError, SearchOptions};
use crate::syntax::{accepts, parse, parse_result, Tree};
use crate::text::{chars_of, push_str, string_of};
use regex::bytes::Regex;
use vstd::prelude::*;
use vstd::slice::slice_subrange;

verus! {

/// A compiled regex.
#[verifier::external_type_specification]
#[verifier::external_body]
pub struct ExRegex(regex::bytes::Regex);

/// The tree that a regex was compiled from.
pub uninterp spec fn regex_tree(re: Regex) -> Tree;

/// The matches of a regex in a text.
pub uninterp spec fn regex_spans(re: Regex, data: Seq<u8>) -> Seq<(usize, usize)>;

/// The matches in a text of the regex that a pattern makes.
pub uninterp spec fn matches_of(
    pattern: Seq<char>,
    case_insensitive: bool,
    data: Seq<u8>,
) -> Seq<(usize, usize)>;

/// Why the regex engine refuses a pattern, if it does.
pub uninterp spec fn regex_fault(pattern: Seq<char>, case_insensitive: bool) -> Option<Seq<char>>;

/// `regex::bytes::RegexBuilder::build`, with the given case sensitivity and
/// multi-line mode on: the compiled regex, or the text of the error. The
/// engine compiles the tree that regex-syntax makes of the same pattern and
/// flags, where that parser accepts the pattern. What the regex matches
/// depends on the pattern and the flag alone.
#[verifier::external_body]
fn build_regex(pattern: &str, case_insensitive: bool) -> (r: Result<Regex, String>)
    ensures
        match r {
            Ok(re) => regex_fault(pattern@, case_insensitive) is None && (parse_result(
                pattern@,
                case_insensitive,
            ) matches Ok(t) ==> regex_tree(re) == t) && forall|d: Seq<u8>| #[trigger]
                regex_spans(re, d) == matches_of(pattern@, case_insensitive, d),
            Err(e) => regex_fault(pattern@, case_insensitive) == Some(e@),
        },
{
    regex::bytes::RegexBuilder::new(pattern)
        .case_insensitive(case_insensitive)
        .multi_line(true)
        .build()
        .map_err(|e| e.to_string())
}

/// Whether each match is a string that the tree matches.
pub open spec fn spans_accepted(t: Tree, data: Seq<u8>, spans: Seq<(usize, usize)>) -> bool {
    ordered(spans, data.len()) && forall|i: int|
        0 <= i < spans.len() ==> accepts(
            t,
            data.subrange((#[trigger] spans[i]).0 as int, spans[i].1 as int),
        )
}

/// `regex::bytes::Regex::find_iter`: the successive non-overlapping matches
/// in a text. Each is a string that the regex's tree matches.
#[verifier::external_body]
fn find_spans(re: &Regex, data: &[u8]) -> (r: Vec<(usize, usize)>)
    ensures
        r@ == regex_spans(*re, data@),
        spans_accepted(regex_tree(*re), data@, r@),
{
    re.find_iter(data).map(|m| (m.start(), m.end())).collect()
}

/// Whether a character has significance in a regex.
pub open spec fn is_meta(c: char) -> bool {
    c == '\\' || c == '.' || c == '+' || c == '*' || c == '?' || c == '(' || c == ')' || c == '|'
        || c == '[' || c == ']' || c == '{' || c == '}' || c == '^' || c == '$' || c == '#' || c
        == '&' || c == '-' || c == '~'
}

/// A text with a backslash before each meta character.
pub open spec fn escaped(s: Seq<char>) -> Seq<char>
    decreases s.len(),
{
    if s.len() == 0 {
        Seq::empty()
    } else if is_meta(s.last()) {
        escaped(s.drop_last()).push('\\').push(s.last())
    } else {
        escaped(s.drop_last()).push(s.last())
    }
}

/// `regex_syntax::escape` puts a backslash before each meta character.
pub assume_specification[ regex_syntax::escape ](text: &str) -> (r: String)
    ensures
        r@ == escaped(text@),
;

/// Whether Unicode has a character as uppercase.
pub uninterp spec fn is_upper(c: char) -> bool;

/// `char::is_uppercase`: the Unicode property of the character.
pub assume_specification[ char::is_uppercase ](c: char) -> (r: bool)
    ensures
        r == is_upper(c),
;

/// Whether a text has an uppercase character.
pub open spec fn has_upper(s: Seq<char>) -> bool {
    exists|i: int| 0 <= i < s.len() && is_upper(#[trigger] s[i])
}

fn any_upper(s: &str) -> (r: bool)
    ensures
        r == has_upper(s@),
{
    let chars = chars_of(s);
    for i in 0..chars.len()
        invariant
            chars@ == s@,
            forall|k: int| 0 <= k < i ==> !is_upper(#[trigger] s@[k]),
    {
        if chars[i].is_uppercase() {
            assert(is_upper(s@[i as int]));
            return true;
        }
    }
    false
}

/// Whether case does not matter: on request, or with smart case unless the
/// pattern has an uppercase character.
pub open spec fn ignores_case(
    pattern: Seq<char>,
    case_insensitive: bool,
    smart_case: bool,
) -> bool {
    case_insensitive || (smart_case && !has_upper(pattern))
}

/// The regex for a pattern: fixed strings escaped, words between boundaries.
pub open spec fn regex_text(pattern: Seq<char>, fixed_string: bool, word: bool) -> Seq<char> {
    let p = if fixed_string {
        escaped(pattern)
    } else {
        pattern
    };
    if word {
        "\\b(?:"@ + p + ")\\b"@
    } else {
        p
    }
}

pub struct Matcher {
    pub regex: Regex,
    pub query: Query,
}

/// What a compiled pattern is, or why there is none.
pub open spec fn compiles_to(
    r: Result<Matcher, SearchError>,
    pattern: Seq<char>,
    opts: SearchOptions,
) -> bool {
    let text = regex_text(pattern, opts.fixed_string, opts.word);
    let ci = ignores_case(pattern, opts.case_insensitive, opts.smart_case);
    if pattern.len() == 0 {
        r matches Err(SearchError::BadPattern(e)) && e@ == "empty pattern"@
    } else {
        match (parse_result(text, ci), regex_fault(text, ci)) {
            (Err(message), _) => r matches Err(SearchError::BadPattern(e)) && e@ == message,
            (Ok(_), Some(message)) => r matches Err(SearchError::BadPattern(e)) && e@ == message,
            (Ok(tree), None) => r matches Ok(m) && regex_tree(m.regex) == tree && (forall|
                d: Seq<u8>,
            | #[trigger] regex_spans(m.regex, d) == matches_of(text, ci, d)) && m.query.formula()
                == if opts.invert {
                Formula::All
            } else {
                planned(tree)
            },
        }
    }
}

/// Compile the pattern into both the index query and the confirming regex.
/// With inversion the index cannot narrow anything.
pub fn compile(pattern: &str, opts: &SearchOptions) -> (r: Result<Matcher, SearchError>)
    ensures
        compiles_to(r, pattern@, *opts),
{
    if pattern.is_empty() {
        return Err(SearchError::BadPattern("empty pattern".to_owned()));
    }
    let ci = opts.case_insensitive || (opts.smart_case && !any_upper(pattern));
    let body = if opts.fixed_string {
        regex_syntax::escape(pattern)
    } else {
        pattern.to_owned()
    };
    let text = if opts.word {
        let mut t: Vec<char> = Vec::new();
        push_str(&mut t, "\\b(?:");
        push_str(&mut t, body.as_str());
        push_str(&mut t, ")\\b");
        assert(t@ =~= "\\b(?:"@ + body@ + ")\\b"@);
        string_of(&t)
    } else {
        body
    };
    let node = match parse(text.as_str(), ci) {
        Ok(n) => n,
        Err(message) => {
            return Err(SearchError::BadPattern(message));
        },
    };
    let regex = match build_regex(text.as_str(), ci) {
        Ok(re) => re,
        Err(message) => {
            return Err(SearchError::BadPattern(message));
        },
    };
    let query = if opts.invert {
        Query::All
    } else {
        plan_tree(&node)
    };
    Ok(Matcher { regex, query })
}

/// Matches of the part of a text from `by` on, as matches of the text.
pub open spec fn moved(spans: Seq<(usize, usize)>, by: int) -> Seq<(usize, usize)> {
    Seq::new(spans.len(), |i: int| ((spans[i].0 + by) as usize, (spans[i].1 + by) as usize))
}

/// The matches on the line that begins at `start` and on those behind it,
/// each line searched by itself.
pub open spec fn line_spans(re: Regex, data: Seq<u8>, start: int) -> Seq<(usize, usize)>
    decreases data.len() + 1 - start,
{
    if start < 0 || start >= data.len() {
        Seq::empty()
    } else {
        proof {
            lemma_line_end(data, start);
        }
        let end = line_end(data, start);
        moved(regex_spans(re, data.subrange(start, end)), start) + line_spans(re, data, end + 1)
    }
}

/// Whether what the regex finds in the line that begins at `start`, and in each
/// one behind it, lies in the line, in order.
pub open spec fn finds_in_lines(re: Regex, data: Seq<u8>, start: int) -> bool
    decreases data.len() + 1 - start,
{
    if start < 0 || start >= data.len() {
        true
    } else {
        proof {
            lemma_line_end(data, start);
        }
        let end = line_end(data, start);
        let line = data.subrange(start, end);
        ordered(regex_spans(re, line), line.len()) && finds_in_lines(re, data, end + 1)
    }
}

/// The matches of a search: those of each line by itself, or those of the
/// whole text when they may span lines.
pub open spec fn matches_in(re: Regex, data: Seq<u8>, multiline: bool) -> Seq<(usize, usize)> {
    if multiline {
        regex_spans(re, data)
    } else {
        line_spans(re, data, 0)
    }
}

/// The matches of each line by itself.
fn find_by_line(re: &Regex, data: &[u8]) -> (r: Vec<(usize, usize)>)
    requires
        data@.len() < usize::MAX,
    ensures
        r@ == line_spans(*re, data@, 0),
        spans_accepted(regex_tree(*re), data@, r@),
        finds_in_lines(*re, data@, 0),
{
    let ghost t = regex_tree(*re);
    let mut r: Vec<(usize, usize)> = Vec::new();
    let mut start: usize = 0;
    assert(r@ + line_spans(*re, data@, 0) =~= line_spans(*re, data@, 0));
    while start < data.len()
        invariant
            data@.len() < usize::MAX,
            start <= data@.len() + 1,
            t == regex_tree(*re),
            spans_accepted(t, data@, r@),
            forall|k: int| 0 <= k < r@.len() ==> (#[trigger] r@[k]).1 < start,
            r@ + line_spans(*re, data@, start as int) == line_spans(*re, data@, 0),
            finds_in_lines(*re, data@, start as int) ==> finds_in_lines(*re, data@, 0),
        decreases data@.len() + 1 - start,
    {
        let end: usize = find_line_end(data, start);
        let line = slice_subrange(data, start, end);
        let found = find_spans(re, line);
        let ghost before = r@;
        let ghost here = moved(found@, start as int);
        for i in 0..found.len()
            invariant
                start <= end <= data@.len(),
                data@.len() < usize::MAX,
                line@ == data@.subrange(start as int, end as int),
                spans_accepted(t, line@, found@),
                spans_accepted(t, data@, r@),
                before.len() + i == r@.len(),
                here == moved(found@, start as int),
                r@ == before + here.take(i as int),
                forall|k: int| 0 <= k < before.len() ==> (#[trigger] before[k]).1 < start,
                forall|k: int| 0 <= k < r@.len() ==> (#[trigger] r@[k]).1 <= end,
        {
            let (s, e): (usize, usize) = found[i];
            assert(found@[i as int].0 <= found@[i as int].1);
            let ghost so_far = r@;
            r.push((start + s, start + e));
            proof {
                assert(here.take(i as int).push(here[i as int]) =~= here.take(i as int + 1));
                assert(r@ =~= before + here.take(i as int + 1));
                assert(line@.subrange(s as int, e as int) =~= data@.subrange(
                    start + s,
                    start + e,
                ));
                assert forall|k: int| 0 <= k < so_far.len() implies (#[trigger] so_far[k]).1
                    <= start + s by {
                    if k < before.len() {
                        assert(so_far[k] == before[k]);
                    } else {
                        assert(so_far[k] == here[k - before.len()]);
                        assert(found@[k - before.len()].1 <= found@[i as int].0);
                    }
                }
            }
        }
        proof {
            assert(here.take(here.len() as int) =~= here);
            assert(before + (here + line_spans(*re, data@, end + 1)) =~= r@ + line_spans(
                *re,
                data@,
                end + 1,
            ));
        }
        start = end + 1;
    }
    assert(r@ + Seq::<(usize, usize)>::empty() =~= r@);
    r
}

/// The matches of a search.
fn find_matches(re: &Regex, data: &[u8], multiline: bool) -> (r: Vec<(usize, usize)>)
    requires
        data@.len() < usize::MAX,
    ensures
        r@ == matches_in(*re, data@, multiline),
        spans_accepted(regex_tree(*re), data@, r@),
        !multiline ==> finds_in_lines(*re, data@, 0),
{
    if multiline {
        find_spans(re, data)
    } else {
        find_by_line(re, data)
    }
}

/// Scan one buffer as the mode says.
pub fn scan_with(re: &Regex, data: &[u8], mode: ScanMode) -> (r: Vec<MatchLine>)
    requires
        data@.len() < usize::MAX,
    ensures
        rows(r@) == scanned(data@, matches_in(*re, data@, mode.multiline), mode),
        spans_accepted(regex_tree(*re), data@, matches_in(*re, data@, mode.multiline)),
        !mode.multiline ==> finds_in_lines(*re, data@, 0),
{
    let spans = find_matches(re, data, mode.multiline);
    scan_spans(data, &spans, mode)
}

/// The mode for matched lines, with context.
pub open spec fn line_mode(
    matches_only: bool,
    max_count: Option<u64>,
    before: usize,
    after: usize,
) -> ScanMode {
    ScanMode {
        matches_only,
        multiline: false,
        invert: false,
        only_matching: false,
        max_count,
        before,
        after,
    }
}

/// Scan one buffer, collecting matched lines.
pub fn scan_buffer(re: &Regex, data: &[u8], matches_only: bool, max_count: Option<u64>) -> (r: Vec<
    MatchLine,
>)
    requires
        data@.len() < usize::MAX,
    ensures
        rows(r@) == scanned(
            data@,
            line_spans(*re, data@, 0),
            line_mode(matches_only, max_count, 0, 0),
        ),
        spans_accepted(regex_tree(*re), data@, line_spans(*re, data@, 0)),
        finds_in_lines(*re, data@, 0),
{
    scan_buffer_ctx(re, data, matches_only, max_count, 0, 0)
}

/// Scan one buffer, collecting matched lines plus `before`/`after` context.
pub fn scan_buffer_ctx(
    re: &Regex,
    data: &[u8],
    matches_only: bool,
    max_count: Option<u64>,
    before: usize,
    after: usize,
) -> (r: Vec<MatchLine>)
    requires
        data@.len() < usize::MAX,
    ensures
        rows(r@) == scanned(
            data@,
            line_spans(*re, data@, 0),
            line_mode(matches_only, max_count, before, after),
        ),
        spans_accepted(regex_tree(*re), data@, line_spans(*re, data@, 0)),
        finds_in_lines(*re, data@, 0),
{
    scan_with(
        re,
        data,
        ScanMode {
            matches_only,
            multiline: false,
            invert: false,
            only_matching: false,
            max_count,
            before,
            after,
        },
    )
}

} // verus!
