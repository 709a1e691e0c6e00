//! What a search is asked for, and how it can fail.

use crate::index::format::{fault_message, IndexError};
use crate::text::{chars_of, push_str, string_of};
use vstd::prelude::*;

verus! {

#[derive(Debug)]
pub struct SearchOptions {
    pub case_insensitive: bool,
    pub fixed_string: bool,
    /// Stop scanning a file at the first match (-l / -c file listings).
    pub matches_only: bool,
    /// Matches may span lines (-U).
    pub multiline: bool,
    /// Only match surrounded by word boundaries (-w).
    pub word: bool,
    /// Lines without a match (-v).
    pub invert: bool,
    /// Each match on its own instead of the whole line (-o).
    pub only_matching: bool,
    /// Insensitive unless the pattern has uppercase (-S).
    pub smart_case: bool,
    /// Search hidden files too (--hidden).
    pub hidden: bool,
    /// Walk-scans ignore the ignore rules (--no-ignore).
    pub no_ignore: bool,
    /// How many threads to use; none given means as many as the machine runs
    /// at a time.
    pub threads: Option<usize>,
    /// Restrict to files under these scopes. Each scope is a `/`-separated
    /// path relative to the index root; a file matches a scope when it equals
    /// it (a file argument) or sits under it (a directory argument). Empty =
    /// no restriction.
    pub path_scopes: Vec<String>,
    pub max_count: Option<u64>,
    /// Context lines to show before / after each matching line (-B / -A).
    pub before: usize,
    pub after: usize,
    /// Glob filters (-g). A leading `!` excludes; otherwise, the presence of
    /// any positive glob restricts results to files that match one.
    pub globs: Vec<String>,
    /// File types to include (-t) and exclude (-T), by name (e.g. "rust").
    pub types_select: Vec<String>,
    pub types_negate: Vec<String>,
}

impl Default for SearchOptions {
    fn default() -> (r: SearchOptions)
        ensures
            !r.case_insensitive && !r.fixed_string && !r.matches_only && !r.multiline && !r.word
                && !r.invert && !r.only_matching && !r.smart_case && !r.hidden && !r.no_ignore,
            r.threads is None,
            r.path_scopes@.len() == 0,
            r.max_count is None,
            r.before == 0 && r.after == 0,
            r.globs@.len() == 0 && r.types_select@.len() == 0 && r.types_negate@.len() == 0,
    {
        SearchOptions {
            case_insensitive: false,
            fixed_string: false,
            matches_only: false,
            multiline: false,
            word: false,
            invert: false,
            only_matching: false,
            smart_case: false,
            hidden: false,
            no_ignore: false,
            threads: None,
            path_scopes: Vec::new(),
            max_count: None,
            before: 0,
            after: 0,
            globs: Vec::new(),
            types_select: Vec::new(),
            types_negate: Vec::new(),
        }
    }
}

/// What a search did.
#[derive(Debug)]
pub struct SearchStats {
    pub query_display: String,
    pub files_in_index: usize,
    pub candidates: usize,
    pub files_scanned: usize,
    pub files_matched: usize,
    pub lines_matched: usize,
    pub plan_micros: u128,
    pub lookup_micros: u128,
    pub scan_micros: u128,
}

#[derive(Debug)]
pub enum SearchError {
    BadPattern(String),
    Io(String),
    Index(IndexError),
}

/// What is said of a failed search.
pub open spec fn search_message(e: SearchError) -> Seq<char> {
    match e {
        SearchError::BadPattern(e) => "invalid pattern: "@ + e@,
        SearchError::Io(e) => "io error: "@ + e@,
        SearchError::Index(e) => fault_message(e.fault()),
    }
}

impl SearchError {
    pub fn message(&self) -> (r: String)
        ensures
            r@ == search_message(*self),
    {
        match self {
            SearchError::BadPattern(e) => {
                let mut out = chars_of("invalid pattern: ");
                push_str(&mut out, e.as_str());
                string_of(&out)
            },
            SearchError::Io(e) => {
                let mut out = chars_of("io error: ");
                push_str(&mut out, e.as_str());
                string_of(&out)
            },
            SearchError::Index(e) => e.message(),
        }
    }
}

} // verus!
