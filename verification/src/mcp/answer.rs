//! Answers: what a search is told as text.

use crate::numbers::{decimal, push_decimal};
use crate::search::lines::MatchLine;
use crate::search::select::{count_matched, total_matches, FileResult};
use crate::text::{chars_of, lossy, lossy_text, push_chars, push_str, string_of};
use vstd::prelude::*;

verus! {

/// A text without the carriage returns behind.
pub open spec fn without_returns(s: Seq<char>) -> Seq<char>
    decreases s.len(),
{
    if s.len() > 0 && s.last() == '\r' {
        without_returns(s.drop_last())
    } else {
        s
    }
}

/// A line as it is told. grep convention: ':' for a match line, '-' for a
/// context line.
pub open spec fn told(path: Seq<char>, line: MatchLine) -> Seq<char> {
    let mark = if line.is_match {
        ":"@
    } else {
        "-"@
    };
    path + mark + decimal(line.line_number as nat) + mark + without_returns(lossy_text(line.line@))
        + "\n"@
}

fn push_told(out: &mut Vec<char>, path: &str, line: &MatchLine)
    ensures
        final(out)@ == old(out)@ + told(path@, *line),
{
    let ghost before = out@;
    let mark = if line.is_match {
        ":"
    } else {
        "-"
    };
    push_str(out, path);
    push_str(out, mark);
    push_decimal(out, line.line_number);
    push_str(out, mark);
    let text = lossy(line.line.as_slice());
    let mut chars = chars_of(text.as_str());
    while chars.len() > 0 && chars[chars.len() - 1] == '\r'
        invariant
            without_returns(chars@) == without_returns(text@),
        decreases chars@.len(),
    {
        let _ = chars.pop();
    }
    push_chars(out, &chars);
    push_str(out, "\n");
    assert(out@ =~= before + told(path@, *line));
}

/// The lines that are told from line `j` of file `i` on, with `shown` matched
/// lines before: all up to a matched line too many.
pub open spec fn listing(
    results: Seq<FileResult>,
    i: int,
    j: int,
    shown: int,
    max: int,
) -> Seq<char>
    decreases results.len() - i, results[i].lines@.len() - j,
{
    if i < 0 || i >= results.len() {
        Seq::empty()
    } else if j < 0 || j >= results[i].lines@.len() {
        listing(results, i + 1, 0, shown, max)
    } else {
        let line = results[i].lines@[j];
        if line.is_match && shown >= max {
            Seq::empty()
        } else {
            told(results[i].rel_path@, line) + listing(
                results,
                i,
                j + 1,
                if line.is_match {
                    shown + 1
                } else {
                    shown
                },
                max,
            )
        }
    }
}

/// A number of matches, as far as it is counted.
pub open spec fn counted(results: Seq<FileResult>) -> nat {
    if total_matches(results) > usize::MAX {
        usize::MAX as nat
    } else {
        total_matches(results)
    }
}

/// What is told of a search.
pub open spec fn matches_text(results: Seq<FileResult>, max: int) -> Seq<char> {
    let total = counted(results);
    if total == 0 {
        "No matches."@
    } else {
        listing(results, 0, 0, 0, max) + "\n"@ + decimal(total) + (if total == 1 {
            " match in "@
        } else {
            " matches in "@
        }) + decimal(results.len()) + (if results.len() == 1 {
            " file"@
        } else {
            " files"@
        }) + (if total > max {
            " — showing first matches; narrow with path/glob/type or raise max_results"@
        } else {
            ""@
        })
    }
}

fn push_listing(out: &mut Vec<char>, results: &Vec<FileResult>, max: usize)
    ensures
        final(out)@ == old(out)@ + listing(results@, 0, 0, 0, max as int),
{
    let ghost all = out@ + listing(results@, 0, 0, 0, max as int);
    let mut i: usize = 0;
    let mut j: usize = 0;
    let mut shown: usize = 0;
    while i < results.len()
        invariant
            i <= results@.len(),
            i < results@.len() ==> j <= results@[i as int].lines@.len(),
            shown <= max,
            all == old(out)@ + listing(results@, 0, 0, 0, max as int),
            out@ + listing(results@, i as int, j as int, shown as int, max as int) == all,
        decreases results@.len() - i,
            if i < results@.len() {
                results@[i as int].lines@.len() - j
            } else {
                0
            },
    {
        let file = &results[i];
        if j >= file.lines.len() {
            i += 1;
            j = 0;
        } else {
            let line = &file.lines[j];
            if line.is_match && shown >= max {
                assert(all =~= out@);
                return;
            }
            let ghost before = out@;
            let ghost told_now = told(file.rel_path@, *line);
            let ghost rest = listing(
                results@,
                i as int,
                j as int + 1,
                if line.is_match {
                    shown + 1
                } else {
                    shown as int
                },
                max as int,
            );
            assert(before + (told_now + rest) =~= before + told_now + rest);
            push_told(out, file.rel_path.as_str(), line);
            if line.is_match {
                shown += 1;
            }
            j += 1;
        }
    }
    assert(all =~= out@);
}

/// Tells what a search found: at most `max` matched lines, and how many there
/// are.
pub fn format_matches(results: &Vec<FileResult>, max: usize) -> (r: String)
    ensures
        r@ == matches_text(results@, max as int),
{
    let total: usize = count_matched(results);
    if total == 0 {
        return "No matches.".to_owned();
    }
    let mut out: Vec<char> = Vec::new();
    push_listing(&mut out, results, max);
    push_str(&mut out, "\n");
    push_decimal(&mut out, total as u64);
    if total == 1 {
        push_str(&mut out, " match in ");
    } else {
        push_str(&mut out, " matches in ");
    }
    let files: usize = results.len();
    push_decimal(&mut out, files as u64);
    if files == 1 {
        push_str(&mut out, " file");
    } else {
        push_str(&mut out, " files");
    }
    if total > max {
        push_str(
            &mut out,
            " — showing first matches; narrow with path/glob/type or raise max_results",
        );
    } else {
        push_str(&mut out, "");
    }
    assert(out@ =~= matches_text(results@, max as int));
    string_of(&out)
}

/// The paths of the first `n` files, one on each line.
pub open spec fn paths_text(results: Seq<FileResult>, n: int) -> Seq<char>
    decreases n,
{
    if n <= 0 {
        Seq::empty()
    } else {
        paths_text(results, n - 1) + results[n - 1].rel_path@ + "\n"@
    }
}

/// Tells the files that match, and how many there are.
pub fn format_files(results: &Vec<FileResult>) -> (r: String)
    ensures
        r@ == if results@.len() == 0 {
            "No files match."@
        } else {
            paths_text(results@, results@.len() as int) + "\n"@ + decimal(results@.len()) + (
            if results@.len() == 1 {
                " file"@
            } else {
                " files"@
            })
        },
{
    if results.len() == 0 {
        return "No files match.".to_owned();
    }
    let mut out: Vec<char> = Vec::new();
    for i in 0..results.len()
        invariant
            out@ == paths_text(results@, i as int),
    {
        push_str(&mut out, results[i].rel_path.as_str());
        push_str(&mut out, "\n");
    }
    let ghost paths = out@;
    push_str(&mut out, "\n");
    let files: usize = results.len();
    push_decimal(&mut out, files as u64);
    if files == 1 {
        push_str(&mut out, " file");
    } else {
        push_str(&mut out, " files");
    }
    string_of(&out)
}

} // verus!
