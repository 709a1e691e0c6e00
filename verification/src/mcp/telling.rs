//! What requests ask for, and what the answers tell.

use crate::cli::printing::{law_match_count_counts_matches, matched};
use crate::cli::route::{below, law_below_is_the_way_from_the_root};
use crate::mcp::answer::{counted, listing, matches_text, paths_text, told, without_returns};
use crate::mcp::json::Json;
use crate::mcp::request::{asked, given_in, scope_of, Asked};
use crate::numbers::decimal;
use crate::search::lines::{rows, MatchLine};
use crate::search::select::{total_matches, FileResult};
use crate::text::{forward, lossy_text};
use vstd::prelude::*;

verus! {

/// The lines of a file, each under the file's path.
pub open spec fn lines_of(fr: FileResult) -> Seq<(Seq<char>, MatchLine)> {
    Seq::new(fr.lines@.len(), |j: int| (fr.rel_path@, fr.lines@[j]))
}

/// The lines of the files from file `i` on, in order.
pub open spec fn lines_from(results: Seq<FileResult>, i: int) -> Seq<(Seq<char>, MatchLine)>
    decreases results.len() - i,
{
    if i < 0 || i >= results.len() {
        Seq::empty()
    } else {
        lines_of(results[i]) + lines_from(results, i + 1)
    }
}

/// The text of lines, one behind the other.
pub open spec fn text_of_lines(list: Seq<(Seq<char>, MatchLine)>) -> Seq<char>
    decreases list.len(),
{
    if list.len() == 0 {
        Seq::empty()
    } else {
        told(list[0].0, list[0].1) + text_of_lines(list.skip(1))
    }
}

/// The number of lines that are matches.
pub open spec fn matches_among(list: Seq<(Seq<char>, MatchLine)>) -> nat
    decreases list.len(),
{
    if list.len() == 0 {
        0
    } else {
        matches_among(list.skip(1)) + if list[0].1.is_match {
            1nat
        } else {
            0
        }
    }
}

/// Whether `k` lines are those up to a match too many, of which there may be
/// `room`.
pub open spec fn is_cut(list: Seq<(Seq<char>, MatchLine)>, k: int, room: int) -> bool {
    &&& 0 <= k <= list.len()
    &&& matches_among(list.take(k)) <= room
    &&& k < list.len() ==> list[k].1.is_match && matches_among(list.take(k)) == room
}

proof fn lemma_listing(results: Seq<FileResult>, i: int, j: int, shown: int, max: int) -> (k: int)
    requires
        0 <= i <= results.len(),
        0 <= j,
        i < results.len() ==> j <= results[i].lines@.len(),
        i == results.len() ==> j == 0,
        0 <= shown <= max,
    ensures
        ({
            let list = lines_from(results, i).skip(j);
            is_cut(list, k, max - shown) && listing(results, i, j, shown, max) == text_of_lines(
                list.take(k),
            )
        }),
    decreases results.len() - i, results[i].lines@.len() - j,
{
    let list = lines_from(results, i).skip(j);
    if i == results.len() {
        assert(list.take(0) =~= Seq::<(Seq<char>, MatchLine)>::empty());
        0
    } else if j == results[i].lines@.len() {
        assert(list =~= lines_from(results, i + 1).skip(0));
        lemma_listing(results, i + 1, 0, shown, max)
    } else {
        let line = results[i].lines@[j];
        assert(list[0] == (results[i].rel_path@, line));
        if line.is_match && shown >= max {
            assert(list.take(0) =~= Seq::<(Seq<char>, MatchLine)>::empty());
            0
        } else {
            let now: int = if line.is_match {
                shown + 1
            } else {
                shown
            };
            let rest = lines_from(results, i).skip(j + 1);
            assert(rest =~= list.skip(1));
            let k = lemma_listing(results, i, j + 1, now, max);
            assert(list.take(k + 1).skip(1) =~= rest.take(k));
            assert(list.take(k + 1)[0] == list[0]);
            if k < rest.len() {
                assert(list[k + 1] == rest[k]);
            }
            k + 1
        }
    }
}

/// A search tells its lines in order, file by file, up to the first match too
/// many: at most as many matches as asked for, and all the lines where there
/// are no more.
pub proof fn law_first_matches_are_told(results: Seq<FileResult>, max: int)
    requires
        max >= 0,
    ensures
        exists|k: int|
            #![trigger lines_from(results, 0).take(k)]
            is_cut(lines_from(results, 0), k, max) && listing(results, 0, 0, 0, max)
                == text_of_lines(lines_from(results, 0).take(k)),
{
    let k = lemma_listing(results, 0, 0, 0, max);
    assert(lines_from(results, 0).skip(0) =~= lines_from(results, 0));
    assert(is_cut(lines_from(results, 0), k, max) && listing(results, 0, 0, 0, max)
        == text_of_lines(lines_from(results, 0).take(k)));
}

proof fn lemma_matches_of_file(fr: FileResult, j: int)
    requires
        0 <= j <= fr.lines@.len(),
    ensures
        matches_among(lines_of(fr).skip(j)) + matched(rows(fr.lines@).take(j)).len() == matched(
            rows(fr.lines@),
        ).len(),
    decreases fr.lines@.len() - j,
{
    let list = lines_of(fr).skip(j);
    let all = rows(fr.lines@);
    if j < fr.lines@.len() {
        lemma_matches_of_file(fr, j + 1);
        assert(list.skip(1) =~= lines_of(fr).skip(j + 1));
        reveal(Seq::filter);
        assert(all.take(j + 1).drop_last() =~= all.take(j));
        assert(all.take(j + 1).last() == all[j]);
    } else {
        assert(list =~= Seq::<(Seq<char>, MatchLine)>::empty());
        assert(all.take(j) =~= all);
    }
}

proof fn lemma_among_adds(a: Seq<(Seq<char>, MatchLine)>, b: Seq<(Seq<char>, MatchLine)>)
    ensures
        matches_among(a + b) == matches_among(a) + matches_among(b),
    decreases a.len(),
{
    if a.len() == 0 {
        assert(a + b =~= b);
    } else {
        assert((a + b).skip(1) =~= a.skip(1) + b);
        lemma_among_adds(a.skip(1), b);
    }
}

proof fn lemma_lines_push(results: Seq<FileResult>, i: int)
    requires
        results.len() > 0,
        0 <= i <= results.len() - 1,
    ensures
        lines_from(results, i) == lines_from(results.drop_last(), i) + lines_of(results.last()),
    decreases results.len() - i,
{
    let less = results.drop_last();
    if i == results.len() - 1 {
        assert(lines_from(results, i + 1) =~= Seq::<(Seq<char>, MatchLine)>::empty());
        assert(lines_from(results, i) =~= lines_of(results.last()));
        assert(lines_from(less, i) =~= Seq::<(Seq<char>, MatchLine)>::empty());
    } else {
        lemma_lines_push(results, i + 1);
        assert(less[i] == results[i]);
        assert(lines_from(results, i) =~= lines_from(less, i) + lines_of(results.last()));
    }
}

/// The number that is told is that of all the matched lines, also of those
/// that are not shown.
pub proof fn law_total_counts_every_match(results: Seq<FileResult>)
    ensures
        total_matches(results) == matches_among(lines_from(results, 0)),
    decreases results.len(),
{
    if results.len() > 0 {
        let last = results.last();
        law_total_counts_every_match(results.drop_last());
        lemma_lines_push(results, 0);
        lemma_among_adds(lines_from(results.drop_last(), 0), lines_of(last));
        lemma_matches_of_file(last, 0);
        law_match_count_counts_matches(last.lines@);
        assert(lines_of(last).skip(0) =~= lines_of(last));
        reveal(Seq::filter);
        assert(rows(last.lines@).take(0) =~= Seq::empty());
    }
}

/// A search that found something tells its lines and then how many matches
/// there are, in how many files, and whether not all of them are shown.
pub proof fn law_answer_ends_with_the_total(results: Seq<FileResult>, max: int)
    requires
        0 < total_matches(results) <= usize::MAX,
    ensures
        ({
            let total = total_matches(results);
            let lines = listing(results, 0, 0, 0, max);
            let told_count = decimal(total) + (if total == 1 {
                " match in "@
            } else {
                " matches in "@
            }) + decimal(results.len()) + (if results.len() == 1 {
                " file"@
            } else {
                " files"@
            });
            let answer = matches_text(results, max);
            &&& total <= max ==> answer == lines + "\n"@ + told_count
            &&& total > max ==> answer == lines + "\n"@ + told_count
                + " — showing first matches; narrow with path/glob/type or raise max_results"@
        }),
{
    reveal_strlit("");
    let total = total_matches(results);
    let lines = listing(results, 0, 0, 0, max);
    let a = if total == 1 {
        " match in "@
    } else {
        " matches in "@
    };
    let b = if results.len() == 1 {
        " file"@
    } else {
        " files"@
    };
    let count = decimal(total) + a + decimal(results.len()) + b;
    assert(counted(results) == total);
    assert(lines + "\n"@ + decimal(total) + a + decimal(results.len()) + b =~= lines + "\n"@
        + count);
    assert(lines + "\n"@ + count + ""@ =~= lines + "\n"@ + count);
}

/// A search without a match says so.
pub proof fn law_nothing_found_is_said(results: Seq<FileResult>, max: int)
    requires
        matches_among(lines_from(results, 0)) == 0,
    ensures
        matches_text(results, max) == "No matches."@,
{
    law_total_counts_every_match(results);
}

proof fn lemma_without_returns(s: Seq<char>)
    ensures
        without_returns(s).len() <= s.len(),
        without_returns(s) == s.take(without_returns(s).len() as int),
        without_returns(s).len() > 0 ==> without_returns(s).last() != '\r',
        forall|k: int| without_returns(s).len() <= k < s.len() ==> #[trigger] s[k] == '\r',
    decreases s.len(),
{
    if s.len() > 0 && s.last() == '\r' {
        let less = s.drop_last();
        lemma_without_returns(less);
        let n = without_returns(s).len() as int;
        assert(less.take(n) =~= s.take(n));
        assert forall|k: int| n <= k < s.len() implies #[trigger] s[k] == '\r' by {
            if k < s.len() - 1 {
                assert(less[k] == s[k]);
            }
        }
    } else {
        assert(s.take(s.len() as int) =~= s);
    }
}

/// A line is told with its path, its number and its text without the carriage
/// returns behind: with colons for a match and dashes for context.
pub proof fn law_line_is_told_in_place(path: Seq<char>, line: MatchLine)
    ensures
        exists|n: int|
            #![trigger lossy_text(line.line@).take(n)]
            {
                let text = lossy_text(line.line@);
                let mark = if line.is_match {
                    ":"@
                } else {
                    "-"@
                };
                &&& 0 <= n <= text.len()
                &&& n > 0 ==> text[n - 1] != '\r'
                &&& forall|k: int| n <= k < text.len() ==> #[trigger] text[k] == '\r'
                &&& told(path, line) == path + mark + decimal(line.line_number as nat) + mark
                    + text.take(n) + "\n"@
            },
{
    let text = lossy_text(line.line@);
    lemma_without_returns(text);
    let n = without_returns(text).len() as int;
    assert(text.take(n) == without_returns(text));
    if n > 0 {
        assert(text.take(n).last() == text[n - 1]);
    }
}

/// Each file that matches is told on a line of its own, in order.
pub proof fn law_each_file_is_told(results: Seq<FileResult>, fr: FileResult)
    ensures
        paths_text(Seq::empty(), 0) == Seq::<char>::empty(),
        paths_text(results.push(fr), results.len() as int + 1) == paths_text(
            results,
            results.len() as int,
        ) + fr.rel_path@ + "\n"@,
{
    lemma_same_paths(results, results.push(fr), results.len() as int);
}

proof fn lemma_same_paths(a: Seq<FileResult>, b: Seq<FileResult>, n: int)
    requires
        n <= a.len() <= b.len(),
        forall|i: int| 0 <= i < a.len() ==> a[i] == b[i],
    ensures
        paths_text(a, n) == paths_text(b, n),
    decreases n,
{
    if n > 0 {
        lemma_same_paths(a, b, n - 1);
    }
}

/// The arguments of a tool are members of an object: each text, flag or number
/// where it is one, and else nothing, off, or no context.
pub proof fn law_arguments_are_members(m: Map<Seq<char>, Json>, s: Seq<char>, n: u64)
    ensures
        ({
            let given = given_in(Some(Json::Object(m)));
            &&& m.contains_pair("pattern"@, Json::Text(s)) ==> given.pattern == Some(s)
            &&& m.contains_pair("path"@, Json::Text(s)) ==> given.path == Some(s)
            &&& m.contains_pair("glob"@, Json::Text(s)) ==> given.glob == Some(s)
            &&& m.contains_pair("type"@, Json::Text(s)) ==> given.file_type == Some(s)
            &&& given.ignore_case <==> m.contains_pair("ignore_case"@, Json::Bool(true))
            &&& given.fixed <==> m.contains_pair("fixed"@, Json::Bool(true))
            &&& m.contains_pair("context"@, Json::Number(Some(n))) ==> given.context == n
            &&& m.contains_pair("max_results"@, Json::Number(Some(n))) ==> given.max_results
                == Some(n)
            &&& !m.contains_key("pattern"@) ==> given.pattern is None
            &&& !m.contains_key("path"@) ==> given.path is None
            &&& !m.contains_key("glob"@) ==> given.glob is None
            &&& !m.contains_key("type"@) ==> given.file_type is None
            &&& !m.contains_key("context"@) ==> given.context == 0
            &&& !m.contains_key("max_results"@) ==> given.max_results is None
        }),
{
}

/// A tool call names its tool and has its arguments; one of another name, or
/// of none, is refused, and so is another method.
pub proof fn law_methods_ask_for_what_they_name(
    method: Seq<char>,
    m: Map<Seq<char>, Json>,
    name: Seq<char>,
    args: Json,
)
    requires
        m.contains_pair("name"@, Json::Text(name)),
        m.contains_pair("arguments"@, args),
    ensures
        ({
            let params = Some(Json::Object(m));
            let call = asked("tools/call"@, params);
            &&& name == "code_search"@ ==> call == Asked::CodeSearch(given_in(Some(args)))
            &&& name == "list_matching_files"@ ==> call == Asked::ListMatchingFiles(
                given_in(Some(args)),
            )
            &&& name != "code_search"@ && name != "list_matching_files"@ ==> call == Asked::Refuse(
                -32602,
                "unknown tool: "@ + name,
            )
            &&& asked("tools/call"@, None) is Refuse
            &&& asked("tools/list"@, params) == Asked::Tools
            &&& asked("ping"@, params) == Asked::Nothing
            &&& asked("notifications/initialized"@, params) == Asked::Nothing
            &&& m.contains_pair("protocolVersion"@, args) && args is Text ==> asked(
                "initialize"@,
                params,
            ) == Asked::Initialize(args->Text_0)
            &&& !m.contains_key("protocolVersion"@) ==> asked("initialize"@, params)
                == Asked::Initialize("2025-06-18"@)
            &&& method != "initialize"@ && method != "ping"@ && method
                != "notifications/initialized"@ && method != "tools/list"@ && method
                != "tools/call"@ ==> asked(method, params) == Asked::Refuse(
                -32601,
                "method not found: "@ + method,
            )
        }),
{
    reveal_strlit("initialize");
    reveal_strlit("ping");
    reveal_strlit("notifications/initialized");
    reveal_strlit("tools/list");
    reveal_strlit("tools/call");
    reveal_strlit("code_search");
    reveal_strlit("list_matching_files");
    assert("tools/list"@[6] == 'l');
    assert("tools/call"@[6] == 'c');
    assert("initialize"@[0] == 'i');
    assert("tools/list"@[0] == 't');
    assert("tools/call"@[0] == 't');
}

/// A path below the root is a scope, from the root and with forward slashes;
/// the root itself, a path outside it and no path are none.
pub proof fn law_path_below_the_root_is_a_scope(root: Seq<char>, rel: Seq<char>, path: Seq<char>)
    requires
        root.len() > 0 && root.last() != '/',
        rel.len() > 0,
    ensures
        scope_of(Some(root + seq!['/'] + rel), root) == Some(
            rel.map_values(|c: char| if c == '\\' { '/' } else { c }),
        ),
        scope_of(Some(root), root) is None,
        scope_of(None, root) is None,
        !(exists|r: Seq<char>| path == root + seq!['/'] + r) ==> scope_of(Some(path), root) is None,
{
    let whole = root + seq!['/'] + rel;
    assert(whole =~= root.push('/') + rel);
    law_below_is_the_way_from_the_root(whole, root, rel);
    assert(forward(rel) =~= rel.map_values(|c: char| if c == '\\' { '/' } else { c }));
    if let Some(r) = below(path, root) {
        law_below_is_the_way_from_the_root(path, root, r);
        if path != root {
            assert(root.push('/') + r =~= root + seq!['/'] + r);
        }
    }
}

} // verus!
