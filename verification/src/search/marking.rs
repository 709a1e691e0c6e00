//! What is reported of the matches: the lines that they touch, where they are
//! marked, and each by itself.

use crate::search::lines::{
    at_least, at_most, beginnings, if_touched, lemma_line_end, line_end, line_rank, line_text,
    match_row, match_texts, newlines, on_first_lines, ordered, pieces, some_touches, touches, walk,
    Row,
};
use crate::search::matcher::{finds_in_lines, matches_in, regex_spans, Matcher};
use crate::search::options::SearchOptions;
use crate::search::own_lines::{
    law_line_is_reported_when_it_matches, lemma_line_of, line_start, not_empty,
};
use crate::search::reporting::has_line;
use crate::search::select::reported;
use crate::trigram::is_binary;
use vstd::prelude::*;

verus! {

/// Whether options ask for whole lines with a match, all of them, without
/// context.
pub open spec fn wants_lines(opts: SearchOptions) -> bool {
    !opts.matches_only && !opts.invert && !opts.only_matching && opts.max_count is None
        && opts.before == 0 && opts.after == 0
}

/// Whether a match has a position on the line from `ls` to `le`, its newline
/// included.
pub open spec fn meets(s: int, e: int, ls: int, le: int) -> bool {
    if s < e {
        s <= le && ls < e
    } else {
        ls <= s <= le
    }
}

/// A line is reported exactly when a match is on it, or goes on over it.
pub proof fn law_reported_lines_are_met(
    matcher: Matcher,
    opts: SearchOptions,
    data: Seq<u8>,
    n: nat,
)
    requires
        !is_binary(data),
        wants_lines(opts),
        ordered(matches_in(matcher.regex, data, opts.multiline), data.len()),
        line_text(data, 0, 1, n) is Some,
    ensures
        ({
            let spans = matches_in(matcher.regex, data, opts.multiline);
            let ls = line_start(data, 0, 1, n);
            has_line(reported(matcher, opts, data), n) <==> exists|k: int|
                0 <= k < spans.len() && meets(
                    (#[trigger] spans[k]).0 as int,
                    spans[k].1 as int,
                    ls,
                    line_end(data, ls),
                )
        }),
{
    let spans = matches_in(matcher.regex, data, opts.multiline);
    let f = if_touched(data, spans);
    let all = reported(matcher, opts, data);
    assert(all == walk(data, 0, 1, f));
    let ls = lemma_line_of(data, 0, 1, n, f);
    let le = line_end(data, ls);
    assert forall|k: int| 0 <= k < spans.len() implies (#[trigger] touches(spans[k], ls, le)
        <==> meets(spans[k].0 as int, spans[k].1 as int, ls, le)) by {
        assert(spans[k].0 <= spans[k].1);
    }
    if some_touches(spans, ls, le) {
        let i = choose|i: int| 0 <= i < all.len() && all[i] == f(ls, le, n)[0];
        assert(all[i].number == n);
        let k = choose|k: int| 0 <= k < spans.len() && #[trigger] touches(spans[k], ls, le);
        assert(meets(spans[k].0 as int, spans[k].1 as int, ls, le));
    }
    if exists|k: int|
        0 <= k < spans.len() && meets(
            (#[trigger] spans[k]).0 as int,
            spans[k].1 as int,
            ls,
            le,
        ) {
        let k = choose|k: int|
            0 <= k < spans.len() && meets(
                (#[trigger] spans[k]).0 as int,
                spans[k].1 as int,
                ls,
                le,
            );
        assert(touches(spans[k], ls, le));
    }
}

/// Whether one of the spans holds a position.
pub open spec fn covers(spans: Seq<(usize, usize)>, q: int) -> bool {
    exists|k: int| 0 <= k < spans.len() && (#[trigger] spans[k]).0 <= q < spans[k].1
}

proof fn lemma_pieces_cover(spans: Seq<(usize, usize)>, ls: int, le: int, n: int, q: int)
    requires
        0 <= ls <= q < le <= usize::MAX,
        0 <= n <= spans.len(),
    ensures
        covers(pieces(spans, ls, le, n), q - ls) <==> covers(spans.take(n), q),
    decreases n,
{
    if n > 0 {
        lemma_pieces_cover(spans, ls, le, n - 1, q);
        let (before, now) = (pieces(spans, ls, le, n - 1), pieces(spans, ls, le, n));
        let (s0, s1) = (spans.take(n - 1), spans.take(n));
        let from = at_least(spans[n - 1].0 as int, ls);
        let to = at_most(spans[n - 1].1 as int, le);
        if covers(now, q - ls) {
            let k = choose|k: int|
                0 <= k < now.len() && (#[trigger] now[k]).0 <= q - ls < now[k].1;
            if k < before.len() {
                assert(before[k] == now[k]);
                let j = choose|j: int| 0 <= j < s0.len() && (#[trigger] s0[j]).0 <= q < s0[j].1;
                assert(s1[j] == s0[j]);
            } else {
                assert(now[k] == ((from - ls) as usize, (to - ls) as usize));
                assert(s1[n - 1] == spans[n - 1]);
            }
        }
        if covers(s1, q) {
            let j = choose|j: int| 0 <= j < s1.len() && (#[trigger] s1[j]).0 <= q < s1[j].1;
            if j < n - 1 {
                assert(s0[j] == s1[j]);
                let k = choose|k: int|
                    0 <= k < before.len() && (#[trigger] before[k]).0 <= q - ls < before[k].1;
                assert(now[k] == before[k]);
            } else {
                assert(from < to);
                assert(now[now.len() - 1] == ((from - ls) as usize, (to - ls) as usize));
            }
        }
    }
}

spec fn starting(spans: Seq<(usize, usize)>, ls: int, le: int, n: int) -> Set<int> {
    Set::new(|k: int| 0 <= k < n && ls <= spans[k].0 <= le)
}

proof fn lemma_beginnings(spans: Seq<(usize, usize)>, ls: int, le: int, n: int)
    requires
        0 <= n <= spans.len(),
    ensures
        starting(spans, ls, le, n).finite(),
        beginnings(spans, ls, le, n) == starting(spans, ls, le, n).len(),
    decreases n,
{
    if n > 0 {
        lemma_beginnings(spans, ls, le, n - 1);
        let (a, b) = (starting(spans, ls, le, n - 1), starting(spans, ls, le, n));
        if ls <= spans[n - 1].0 <= le {
            assert(b =~= a.insert(n - 1));
        } else {
            assert(b =~= a);
        }
    } else {
        assert(starting(spans, ls, le, n) =~= Set::<int>::empty());
    }
}

/// What is marked on a reported line is what the matches hold of it, and its
/// count is the number of matches that begin on it.
pub proof fn law_marks_are_the_matches(
    matcher: Matcher,
    opts: SearchOptions,
    data: Seq<u8>,
    i: int,
    q: int,
)
    requires
        !is_binary(data),
        data.len() <= usize::MAX,
        wants_lines(opts),
        0 <= i < reported(matcher, opts, data).len(),
        ({
            let ls = line_start(data, 0, 1, reported(matcher, opts, data)[i].number);
            ls <= q < line_end(data, ls)
        }),
        line_text(data, 0, 1, reported(matcher, opts, data)[i].number) is Some,
    ensures
        ({
            let spans = matches_in(matcher.regex, data, opts.multiline);
            let row = reported(matcher, opts, data)[i];
            let ls = line_start(data, 0, 1, row.number);
            let le = line_end(data, ls);
            &&& covers(row.spans, q - ls) <==> covers(spans, q)
            &&& row.starts == Set::new(
                |k: int| 0 <= k < spans.len() && ls <= spans[k].0 <= le,
            ).len()
            &&& row.is_match
        }),
{
    let spans = matches_in(matcher.regex, data, opts.multiline);
    let f = if_touched(data, spans);
    let row = reported(matcher, opts, data)[i];
    assert(reported(matcher, opts, data) == walk(data, 0, 1, f));
    let ls = lemma_line_of(data, 0, 1, row.number, f);
    lemma_line_end(data, ls);
    let le = line_end(data, ls);
    assert(row == match_row(data, spans, ls, le, row.number));
    lemma_pieces_cover(spans, ls, le, spans.len() as int, q);
    assert(spans.take(spans.len() as int) =~= spans);
    lemma_beginnings(spans, ls, le, spans.len() as int);
    assert(starting(spans, ls, le, spans.len() as int) =~= Set::new(
        |k: int| 0 <= k < spans.len() && ls <= spans[k].0 <= le,
    ));
}

/// -l: a file is named exactly when a line of it is reported otherwise.
pub proof fn law_existence_is_any_line(matcher: Matcher, opts: SearchOptions, data: Seq<u8>)
    requires
        opts.matches_only,
    ensures
        ({
            let lines = SearchOptions {
                matches_only: false,
                only_matching: false,
                max_count: None,
                before: 0,
                after: 0,
                ..opts
            };
            reported(matcher, opts, data).len() > 0 <==> reported(matcher, lines, data).len() > 0
        }),
{
}

/// Nothing is reported of a file with a NUL byte among its first 8192.
pub proof fn law_binary_is_not_reported(
    matcher: Matcher,
    opts: SearchOptions,
    data: Seq<u8>,
    i: int,
)
    requires
        0 <= i < data.len(),
        i < 8192,
        data[i] == 0,
    ensures
        reported(matcher, opts, data).len() == 0,
{
    assert(is_binary(data));
}

/// A file without a NUL byte among its first 8192 is a text, whatever stands
/// behind them.
pub proof fn law_text_is_not_binary(data: Seq<u8>)
    requires
        forall|i: int| 0 <= i < data.len() && i < 8192 ==> data[i] != 0,
    ensures
        !is_binary(data),
{
}

/// The line that a position is on.
proof fn lemma_line_at(data: Seq<u8>, start: int, from: nat, s: int)
    requires
        0 <= start <= s < data.len(),
        start == 0 || data[start - 1] == 10,
    ensures
        ({
            let n = (from + newlines(data, s) - newlines(data, start)) as nat;
            let ls = line_start(data, start, from, n);
            &&& newlines(data, s) >= newlines(data, start)
            &&& line_text(data, start, from, n) is Some
            &&& ls <= s <= line_end(data, ls)
        }),
    decreases data.len() + 1 - start,
{
    lemma_line_end(data, start);
    let end = line_end(data, start);
    if s <= end {
        lemma_no_newlines(data, start, s);
    } else {
        lemma_no_newlines(data, start, end);
        assert(newlines(data, end + 1) == newlines(data, end) + 1);
        lemma_line_at(data, end + 1, from + 1, s);
    }
}

proof fn lemma_no_newlines(data: Seq<u8>, a: int, b: int)
    requires
        0 <= a <= b <= data.len(),
        forall|i: int| a <= i < b ==> data[i] != 10,
    ensures
        newlines(data, b) == newlines(data, a),
    decreases b - a,
{
    if a < b {
        lemma_no_newlines(data, a, b - 1);
    }
}

proof fn lemma_texts(data: Seq<u8>, spans: Seq<(usize, usize)>, n: int)
    requires
        0 <= n <= spans.len(),
    ensures
        match_texts(data, spans, n).len() == not_empty(spans, n).len(),
        forall|i: int|
            0 <= i < not_empty(spans, n).len() ==> (#[trigger] match_texts(data, spans, n)[i])
                == (Row {
                number: newlines(data, not_empty(spans, n)[i].0 as int) + 1,
                spans: seq![(0usize, (not_empty(spans, n)[i].1 - not_empty(spans, n)[i].0) as usize)],
                text: data.subrange(
                    not_empty(spans, n)[i].0 as int,
                    not_empty(spans, n)[i].1 as int,
                ),
                is_match: true,
                starts: 1,
            }),
        forall|i: int|
            0 <= i < not_empty(spans, n).len() ==> (#[trigger] not_empty(spans, n)[i]).0
                < not_empty(spans, n)[i].1 && spans.contains(not_empty(spans, n)[i]),
    decreases n,
{
    if n > 0 {
        lemma_texts(data, spans, n - 1);
        let (a, b) = (not_empty(spans, n - 1), not_empty(spans, n));
        let (t, u) = (match_texts(data, spans, n - 1), match_texts(data, spans, n));
        assert forall|i: int| 0 <= i < b.len() implies (#[trigger] u[i]) == (Row {
            number: newlines(data, b[i].0 as int) + 1,
            spans: seq![(0usize, (b[i].1 - b[i].0) as usize)],
            text: data.subrange(b[i].0 as int, b[i].1 as int),
            is_match: true,
            starts: 1,
        }) by {
            if i < a.len() {
                assert(b[i] == a[i] && u[i] == t[i]);
            }
        }
        assert forall|i: int| 0 <= i < b.len() implies (#[trigger] b[i]).0 < b[i].1
            && spans.contains(b[i]) by {
            if i < a.len() {
                assert(b[i] == a[i]);
            } else {
                assert(b[i] == spans[n - 1]);
            }
        }
    }
}

/// -o: one row for each match that is not empty, in order: its text alone,
/// all of it marked, under the number of the line that it begins on.
pub proof fn law_only_matching_gives_each_match(
    matcher: Matcher,
    opts: SearchOptions,
    data: Seq<u8>,
)
    requires
        !is_binary(data),
        !opts.matches_only && !opts.invert && opts.only_matching && opts.max_count is None,
        ordered(matches_in(matcher.regex, data, opts.multiline), data.len()),
    ensures
        ({
            let spans = matches_in(matcher.regex, data, opts.multiline);
            let each = not_empty(spans, spans.len() as int);
            let all = reported(matcher, opts, data);
            &&& all.len() == each.len()
            &&& forall|i: int|
                0 <= i < all.len() ==> {
                    let (s, e) = each[i];
                    let ls = line_start(data, 0, 1, (#[trigger] all[i]).number);
                    &&& all[i].text == data.subrange(s as int, e as int)
                    &&& all[i].spans == seq![(0usize, (e - s) as usize)]
                    &&& all[i].is_match && all[i].starts == 1
                    &&& ls <= s <= line_end(data, ls)
                    &&& line_text(data, 0, 1, all[i].number) is Some
                }
        }),
{
    let spans = matches_in(matcher.regex, data, opts.multiline);
    let each = not_empty(spans, spans.len() as int);
    let texts = match_texts(data, spans, spans.len() as int);
    lemma_texts(data, spans, spans.len() as int);
    lemma_all_lines(texts, texts.len() as int);
    assert(texts.take(texts.len() as int) =~= texts);
    let all = reported(matcher, opts, data);
    assert(all == texts);
    assert forall|i: int| 0 <= i < all.len() implies {
        let (s, e) = each[i];
        let ls = line_start(data, 0, 1, (#[trigger] all[i]).number);
        &&& all[i].text == data.subrange(s as int, e as int)
        &&& all[i].spans == seq![(0usize, (e - s) as usize)]
        &&& all[i].is_match && all[i].starts == 1
        &&& ls <= s <= line_end(data, ls)
        &&& line_text(data, 0, 1, all[i].number) is Some
    } by {
        let (s, e) = each[i];
        assert(each[i].0 < each[i].1);
        assert(spans.contains(each[i]));
        let k = choose|k: int| 0 <= k < spans.len() && spans[k] == each[i];
        assert(spans[k].1 <= data.len());
        lemma_line_at(data, 0, 1, s as int);
    }
}

proof fn lemma_all_lines(list: Seq<Row>, n: int)
    requires
        0 <= n <= list.len(),
    ensures
        on_first_lines(list, None, n) == list.take(n),
    decreases n,
{
    if n > 0 {
        lemma_all_lines(list, n - 1);
        assert(list.take(n - 1).push(list[n - 1]) =~= list.take(n));
    } else {
        assert(list.take(0) =~= Seq::<Row>::empty());
    }
}

/// How many lines the first `n` rows are of, rows of one line being next to
/// each other.
pub open spec fn lines_in(rows: Seq<Row>, n: int) -> nat
    decreases n,
{
    if n <= 0 {
        0
    } else if n > 1 && rows[n - 1].number == rows[n - 2].number {
        lines_in(rows, n - 1)
    } else {
        lines_in(rows, n - 1) + 1
    }
}

proof fn lemma_rank_counts(rows: Seq<Row>, i: int)
    requires
        0 <= i < rows.len(),
    ensures
        line_rank(rows, i) + 1 == lines_in(rows, i + 1),
    decreases i,
{
    reveal_with_fuel(lines_in, 2);
    if i > 0 {
        lemma_rank_counts(rows, i - 1);
    }
}

proof fn lemma_lines_in_front(a: Seq<Row>, b: Seq<Row>, n: int)
    requires
        0 <= n <= a.len(),
        n <= b.len(),
        forall|i: int| 0 <= i < n ==> a[i] == b[i],
    ensures
        lines_in(a, n) == lines_in(b, n),
    decreases n,
{
    if n > 0 {
        lemma_lines_in_front(a, b, n - 1);
    }
}

/// Where the rows of the first `m` lines end.
proof fn lemma_first_lines_are(list: Seq<Row>, m: u64, n: int) -> (k: int)
    requires
        0 <= n <= list.len(),
    ensures
        0 <= k <= n,
        on_first_lines(list, Some(m), n) == list.take(k),
        lines_in(list, k) <= m,
        k < n ==> lines_in(list, k + 1) > m,
    decreases n,
{
    if n == 0 {
        assert(list.take(0) =~= Seq::<Row>::empty());
        0
    } else {
        let k = lemma_first_lines_are(list, m, n - 1);
        lemma_rank_counts(list, n - 1);
        if k < n - 1 {
            lemma_lines_in_grow(list, k + 1, n);
            k
        } else if line_rank(list, n - 1) >= m {
            k
        } else {
            assert(list.take(n - 1).push(list[n - 1]) =~= list.take(n));
            n
        }
    }
}

proof fn lemma_lines_in_grow(rows: Seq<Row>, a: int, b: int)
    requires
        0 <= a <= b,
    ensures
        lines_in(rows, a) <= lines_in(rows, b),
    decreases b - a,
{
    if a < b {
        lemma_lines_in_grow(rows, a, b - 1);
    }
}

/// -o and -m: the matches on the first `m` lines that have one, and no others.
pub proof fn law_max_count_of_matches(
    matcher: Matcher,
    opts: SearchOptions,
    data: Seq<u8>,
    m: u64,
)
    requires
        !opts.matches_only && !opts.invert && opts.only_matching,
        opts.max_count == Some(m),
    ensures
        ({
            let every = reported(matcher, SearchOptions { max_count: None, ..opts }, data);
            let kept = reported(matcher, opts, data);
            let n = kept.len() as int;
            &&& n <= every.len()
            &&& forall|i: int| 0 <= i < n ==> #[trigger] kept[i] == every[i]
            &&& lines_in(kept, n) <= m
            &&& n < every.len() ==> lines_in(every, n + 1) > m
        }),
{
    if !is_binary(data) {
        let spans = matches_in(matcher.regex, data, opts.multiline);
        let texts = match_texts(data, spans, spans.len() as int);
        let k = lemma_first_lines_are(texts, m, texts.len() as int);
        lemma_all_lines(texts, texts.len() as int);
        assert(texts.take(texts.len() as int) =~= texts);
        lemma_lines_in_front(texts.take(k), texts, k);
    }
}

/// -U: matches are of the whole text, and a line is reported exactly when one
/// is on it or goes on over it.
pub proof fn law_multiline_searches_the_whole_text(
    matcher: Matcher,
    opts: SearchOptions,
    data: Seq<u8>,
    n: nat,
)
    requires
        !is_binary(data),
        wants_lines(opts) && opts.multiline,
        ordered(regex_spans(matcher.regex, data), data.len()),
        line_text(data, 0, 1, n) is Some,
    ensures
        ({
            let spans = regex_spans(matcher.regex, data);
            let ls = line_start(data, 0, 1, n);
            has_line(reported(matcher, opts, data), n) <==> exists|k: int|
                0 <= k < spans.len() && meets(
                    (#[trigger] spans[k]).0 as int,
                    spans[k].1 as int,
                    ls,
                    line_end(data, ls),
                )
        }),
{
    law_reported_lines_are_met(matcher, opts, data, n);
}

/// Without -U a line is reported exactly when the regex finds something in the
/// line by itself.
pub proof fn law_lines_are_searched_by_themselves(
    matcher: Matcher,
    opts: SearchOptions,
    data: Seq<u8>,
    n: nat,
)
    requires
        !is_binary(data),
        data.len() <= usize::MAX,
        wants_lines(opts) && !opts.multiline,
        finds_in_lines(matcher.regex, data, 0),
        line_text(data, 0, 1, n) is Some,
    ensures
        has_line(reported(matcher, opts, data), n) <==> regex_spans(
            matcher.regex,
            line_text(data, 0, 1, n)->0,
        ).len() > 0,
{
    law_line_is_reported_when_it_matches(matcher.regex, data, n);
}

} // verus!
