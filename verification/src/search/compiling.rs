//! What a pattern and its options make of a search.

use crate::plan::Formula;
use crate::search::matcher::{
    compiles_to, escaped, has_upper, is_meta, is_upper, matches_of, regex_fault, regex_spans,
    Matcher,
};
use crate::search::options::{SearchError, SearchOptions};
use crate::syntax::{parse_result, Tree};
use vstd::prelude::*;

verus! {

/// Whether a search goes without regard to case: on request, or with smart
/// case where the pattern has no capital.
pub open spec fn case_is_free(pattern: Seq<char>, opts: SearchOptions) -> bool {
    ||| opts.case_insensitive
    ||| opts.smart_case && forall|i: int|
        0 <= i < pattern.len() ==> !is_upper(#[trigger] pattern[i])
}

/// The regex that a search goes by.
pub open spec fn sought(pattern: Seq<char>, opts: SearchOptions) -> Seq<char> {
    match (opts.fixed_string, opts.word) {
        (false, false) => pattern,
        (true, false) => escaped(pattern),
        (false, true) => "\\b(?:"@ + pattern + ")\\b"@,
        (true, true) => "\\b(?:"@ + escaped(pattern) + ")\\b"@,
    }
}

/// -i, -S, -F and -w: a compiled pattern finds in every text what the pattern
/// finds, as a regex or with its characters escaped, as a whole word where
/// that was asked for, and with regard to case unless it is free.
pub proof fn law_options_say_what_is_found(
    r: Result<Matcher, SearchError>,
    pattern: Seq<char>,
    opts: SearchOptions,
    data: Seq<u8>,
)
    requires
        compiles_to(r, pattern, opts),
    ensures
        r matches Ok(m) ==> regex_spans(m.regex, data) == matches_of(
            sought(pattern, opts),
            case_is_free(pattern, opts),
            data,
        ),
{
    assert(has_upper(pattern) == !(forall|i: int|
        0 <= i < pattern.len() ==> !is_upper(#[trigger] pattern[i])));
}

/// A pattern is refused where it is empty, or where the parser or the regex
/// engine refuses it, with what they say; and else never.
pub proof fn law_pattern_is_refused_for_a_fault(
    r: Result<Matcher, SearchError>,
    pattern: Seq<char>,
    opts: SearchOptions,
)
    requires
        compiles_to(r, pattern, opts),
    ensures
        ({
            let text = sought(pattern, opts);
            let free = case_is_free(pattern, opts);
            &&& r is Ok <==> pattern.len() > 0 && parse_result(text, free) is Ok && regex_fault(
                text,
                free,
            ) is None
            &&& pattern.len() > 0 && r is Err ==> (r matches Err(SearchError::BadPattern(e)) && (
            parse_result(text, free) == Err::<Tree, Seq<char>>(e@) || regex_fault(text, free)
                == Some(e@)))
        }),
{
    assert(has_upper(pattern) == !(forall|i: int|
        0 <= i < pattern.len() ==> !is_upper(#[trigger] pattern[i])));
}

/// -v: files cannot be told apart by the index, so every one of them is
/// looked at.
pub proof fn law_invert_looks_at_every_file(
    r: Result<Matcher, SearchError>,
    pattern: Seq<char>,
    opts: SearchOptions,
)
    requires
        compiles_to(r, pattern, opts),
        opts.invert,
    ensures
        r matches Ok(m) ==> m.query.formula() == Formula::All,
{
}

/// What an escaped text stands for, if no character in it has significance
/// but behind a backslash.
pub open spec fn literal_meaning(t: Seq<char>) -> Option<Seq<char>>
    decreases t.len(),
{
    if t.len() == 0 {
        Some(Seq::empty())
    } else if t[0] == '\\' && t.len() > 1 {
        match literal_meaning(t.skip(2)) {
            Some(rest) => Some(seq![t[1]] + rest),
            None => None,
        }
    } else if is_meta(t[0]) {
        None
    } else {
        match literal_meaning(t.skip(1)) {
            Some(rest) => Some(seq![t[0]] + rest),
            None => None,
        }
    }
}

proof fn lemma_escaped(s: Seq<char>, rest: Seq<char>)
    ensures
        literal_meaning(escaped(s) + rest) == match literal_meaning(rest) {
            Some(m) => Some(s + m),
            None => None,
        },
    decreases s.len(),
{
    if s.len() == 0 {
        assert(escaped(s) + rest =~= rest);
        if let Some(m) = literal_meaning(rest) {
            assert(s + m =~= m);
        }
    } else {
        let c = s.last();
        let own = if is_meta(c) {
            seq!['\\', c]
        } else {
            seq![c]
        };
        let more = own + rest;
        assert(escaped(s) + rest =~= escaped(s.drop_last()) + more);
        lemma_escaped(s.drop_last(), more);
        assert(more.skip(own.len() as int) =~= rest);
        if let Some(m) = literal_meaning(rest) {
            assert(s.drop_last() + (seq![c] + m) =~= s + m);
        }
    }
}

/// -F: an escaped text stands for itself, character for character.
pub proof fn law_escaped_text_reads_back(s: Seq<char>)
    ensures
        literal_meaning(escaped(s)) == Some(s),
{
    lemma_escaped(s, Seq::empty());
    assert(escaped(s) + Seq::<char>::empty() =~= escaped(s));
    assert(s + Seq::<char>::empty() =~= s);
}

} // verus!
