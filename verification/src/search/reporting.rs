//! What the options of a search do to its report.

use crate::search::lines::{
    chosen_lines, if_touched, if_untouched, if_wanted, in_window, law_scan_numbers_ascend,
    law_scan_reports_real_lines, lemma_chosen_ascend, lemma_line_end, line_end, line_text, numbered,
    one_each, scanned, some_touches, walk, wanted, Row, ScanMode,
};
use crate::search::matcher::{line_mode, matches_in, Matcher};
use crate::search::options::SearchOptions;
use crate::search::own_lines::lemma_line_of;
use crate::search::select::{mode_of, reported};
use crate::search::spans::lemma_numbered_is;
use crate::trigram::is_binary;
use vstd::prelude::*;

verus! {

/// Whether one of the rows is of line `n`.
pub open spec fn has_line(rows: Seq<Row>, n: nat) -> bool {
    exists|i: int| 0 <= i < rows.len() && (#[trigger] rows[i]).number == n
}

/// Whether line `n` is at most `before` lines in front of a row, or at most
/// `after` lines behind one.
pub open spec fn near(rows: Seq<Row>, n: nat, before: nat, after: nat) -> bool {
    exists|i: int|
        0 <= i < rows.len() && (#[trigger] rows[i]).number <= n + before && n <= rows[i].number
            + after
}

proof fn lemma_window(
    data: Seq<u8>,
    spans: Seq<(usize, usize)>,
    mode: ScanMode,
    n: nat,
)
    requires
        !mode.matches_only,
        !mode.only_matching || mode.invert,
        line_text(data, 0, 1, n) is Some,
    ensures
        ({
            let plain = scanned(data, spans, ScanMode { before: 0, after: 0, ..mode });
            let all = scanned(data, spans, mode);
            &&& has_line(all, n) <==> near(plain, n, mode.before as nat, mode.after as nat)
            &&& forall|i: int|
                0 <= i < all.len() && (#[trigger] all[i]).number == n ==> (all[i].is_match
                    <==> has_line(plain, n))
            &&& forall|i: int, k: int|
                0 <= i < all.len() && 0 <= k < plain.len() && (#[trigger] all[i]).number == n && (
                #[trigger] plain[k]).number == n ==> all[i].spans == plain[k].spans
                    && all[i].starts == plain[k].starts
            &&& forall|i: int|
                0 <= i < all.len() && (#[trigger] all[i]).number == n && !all[i].is_match
                    ==> all[i].spans.len() == 0 && all[i].starts == 0
        }),
{
    let bare = ScanMode { before: 0, after: 0, ..mode };
    let plain = scanned(data, spans, bare);
    let all = scanned(data, spans, mode);
    let lines = chosen_lines(data, spans, mode);
    assert(plain == lines);
    lemma_chosen_ascend(data, spans, mode);
    assert forall|k: int| 0 <= k < plain.len() implies (#[trigger] plain[k]).is_match by {
        lemma_chosen_match(data, spans, mode, k);
    }
    if (mode.before == 0 && mode.after == 0) || lines.len() == 0 {
        if has_line(all, n) {
            let i = choose|i: int| 0 <= i < all.len() && (#[trigger] all[i]).number == n;
            assert(plain[i].number <= n + mode.before);
        }
    } else {
        let f = if_wanted(data, lines, mode.before as nat, mode.after as nat);
        let ls = lemma_line_of(data, 0, 1, n, f);
        let le = line_end(data, ls);
        assert(all == walk(data, 0, 1, f));
        if near(plain, n, mode.before as nat, mode.after as nat) {
            let k = choose|k: int|
                0 <= k < plain.len() && (#[trigger] plain[k]).number <= n + mode.before && n
                    <= plain[k].number + mode.after;
            assert(in_window(lines[k], n, mode.before as nat, mode.after as nat));
            assert(wanted(lines, n, mode.before as nat, mode.after as nat));
            let i = choose|i: int| 0 <= i < all.len() && all[i] == f(ls, le, n)[0];
            assert(all[i].number == n);
        }
        if has_line(all, n) {
            let i = choose|i: int| 0 <= i < all.len() && (#[trigger] all[i]).number == n;
            assert(wanted(lines, n, mode.before as nat, mode.after as nat));
            let k = choose|k: int|
                0 <= k < lines.len() && #[trigger] in_window(
                    lines[k],
                    n,
                    mode.before as nat,
                    mode.after as nat,
                );
            assert(plain[k].number <= n + mode.before);
        }
        let m = lines.len() as int;
        lemma_numbered_is(lines, n, m);
        if numbered(lines, n, m) is None && has_line(plain, n) {
            let k = choose|k: int| 0 <= k < plain.len() && (#[trigger] plain[k]).number == n;
            lemma_numbered_finds(lines, n, k, m);
        }
        assert forall|i: int, k: int|
            0 <= i < all.len() && 0 <= k < plain.len() && (#[trigger] all[i]).number == n && (
            #[trigger] plain[k]).number == n implies all[i].spans == plain[k].spans
            && all[i].starts == plain[k].starts by {
            lemma_numbered_finds(lines, n, k, m);
            let j = numbered(lines, n, m)->Some_0;
            if j < k {
                assert(lines[j].number < lines[k].number);
            } else if k < j {
                assert(lines[k].number < lines[j].number);
            }
        }
    }
}

proof fn lemma_numbered_finds(list: Seq<Row>, n: nat, i: int, k: int)
    requires
        0 <= i < k <= list.len(),
        list[i].number == n,
    ensures
        numbered(list, n, k) is Some,
    decreases k,
{
    if i < k - 1 {
        lemma_numbered_finds(list, n, i, k - 1);
    }
}

/// Before context comes in, every row is a match.
proof fn lemma_chosen_match(data: Seq<u8>, spans: Seq<(usize, usize)>, mode: ScanMode, i: int)
    requires
        0 <= i < chosen_lines(data, spans, mode).len(),
    ensures
        chosen_lines(data, spans, mode)[i].is_match,
{
    let f = if mode.invert {
        if_untouched(data, spans)
    } else {
        if_touched(data, spans)
    };
    lemma_all_match(data, 0, 1, f);
    assert(chosen_lines(data, spans, mode)[i] == walk(data, 0, 1, f)[i]);
}

proof fn lemma_all_match(
    data: Seq<u8>,
    start: int,
    n: nat,
    f: spec_fn(int, int, nat) -> Seq<Row>,
)
    requires
        one_each(f),
        forall|ls: int, le: int, m: nat|
            (#[trigger] f(ls, le, m)).len() == 1 ==> f(ls, le, m)[0].is_match,
    ensures
        forall|i: int|
            0 <= i < walk(data, start, n, f).len() ==> (#[trigger] walk(
                data,
                start,
                n,
                f,
            )[i]).is_match,
    decreases data.len() + 1 - start,
{
    if 0 <= start < data.len() {
        lemma_line_end(data, start);
        let end = line_end(data, start);
        lemma_all_match(data, end + 1, n + 1, f);
        let here = f(start, end, n);
        let rest = walk(data, end + 1, n + 1, f);
        let all = walk(data, start, n, f);
        assert(all == here + rest);
        assert forall|i: int| 0 <= i < all.len() implies (#[trigger] all[i]).is_match by {
            if i >= here.len() {
                assert(all[i] == rest[i - here.len()]);
            } else {
                assert(all[i] == here[i]);
            }
        }
    }
}

/// -A and -B: with context, line `n` is reported exactly when it is at most
/// `before` lines in front of a line that is reported without context, or at
/// most `after` lines behind one, whatever the other of the two is. It is
/// marked as a match exactly when it is reported without context, with the
/// same matches on it; on other lines nothing is marked.
pub proof fn law_context_is_a_window(
    matcher: Matcher,
    opts: SearchOptions,
    data: Seq<u8>,
    n: nat,
)
    requires
        !is_binary(data),
        !opts.matches_only,
        !opts.only_matching || opts.invert,
        line_text(data, 0, 1, n) is Some,
    ensures
        ({
            let plain = reported(matcher, SearchOptions { before: 0, after: 0, ..opts }, data);
            let all = reported(matcher, opts, data);
            &&& has_line(all, n) <==> near(plain, n, opts.before as nat, opts.after as nat)
            &&& forall|i: int|
                0 <= i < all.len() && (#[trigger] all[i]).number == n ==> (all[i].is_match
                    <==> has_line(plain, n))
            &&& forall|i: int, k: int|
                0 <= i < all.len() && 0 <= k < plain.len() && (#[trigger] all[i]).number == n && (
                #[trigger] plain[k]).number == n ==> all[i].spans == plain[k].spans
                    && all[i].starts == plain[k].starts
            &&& forall|i: int|
                0 <= i < all.len() && (#[trigger] all[i]).number == n && !all[i].is_match
                    ==> all[i].spans.len() == 0 && all[i].starts == 0
        }),
{
    let mode = mode_of(opts);
    assert(mode_of(SearchOptions { before: 0, after: 0, ..opts }) == ScanMode {
        before: 0,
        after: 0,
        ..mode
    });
    lemma_window(data, matches_in(matcher.regex, data, opts.multiline), mode, n);
}

/// The same of one buffer's matches: `before` lines in front of a match and
/// `after` lines behind it, each for itself.
pub proof fn law_buffer_context_is_a_window(
    data: Seq<u8>,
    spans: Seq<(usize, usize)>,
    max_count: Option<u64>,
    before: usize,
    after: usize,
    n: nat,
)
    requires
        line_text(data, 0, 1, n) is Some,
    ensures
        ({
            let plain = scanned(data, spans, line_mode(false, max_count, 0, 0));
            let all = scanned(data, spans, line_mode(false, max_count, before, after));
            has_line(all, n) <==> near(plain, n, before as nat, after as nat)
        }),
{
    lemma_window(data, spans, line_mode(false, max_count, before, after), n);
}

/// Every reported line is one of the text, and none is reported twice.
pub proof fn law_report_is_of_the_text(
    matcher: Matcher,
    opts: SearchOptions,
    data: Seq<u8>,
    i: int,
)
    requires
        !opts.matches_only,
        !opts.only_matching || opts.invert,
        0 <= i < reported(matcher, opts, data).len(),
    ensures
        line_text(data, 0, 1, reported(matcher, opts, data)[i].number) == Some(
            reported(matcher, opts, data)[i].text,
        ),
        forall|k: int|
            i < k < reported(matcher, opts, data).len() ==> reported(matcher, opts, data)[i].number
                < (#[trigger] reported(matcher, opts, data)[k]).number,
{
    let spans = matches_in(matcher.regex, data, opts.multiline);
    law_scan_reports_real_lines(data, spans, mode_of(opts), i);
    law_scan_numbers_ascend(data, spans, mode_of(opts));
}

/// -m: without context, the first `m` of the lines that are reported without a
/// maximum. With context, as many lines are matches.
pub proof fn law_max_count_keeps_the_first(
    matcher: Matcher,
    opts: SearchOptions,
    data: Seq<u8>,
    m: u64,
)
    requires
        !opts.matches_only,
        !opts.only_matching || opts.invert,
        opts.before == 0 && opts.after == 0,
        opts.max_count == Some(m),
    ensures
        ({
            let every = reported(matcher, SearchOptions { max_count: None, ..opts }, data);
            let kept = reported(matcher, opts, data);
            &&& kept.len() <= m
            &&& kept.len() == m || kept.len() == every.len()
            &&& kept.len() <= every.len()
            &&& forall|i: int| 0 <= i < kept.len() ==> #[trigger] kept[i] == every[i]
        }),
{
}

/// -m and -A/-B: a line is marked as a match only if it is among the first `m`
/// lines that match.
pub proof fn law_max_count_with_context(
    matcher: Matcher,
    opts: SearchOptions,
    data: Seq<u8>,
    m: u64,
    i: int,
)
    requires
        !is_binary(data),
        !opts.matches_only,
        !opts.only_matching || opts.invert,
        opts.max_count == Some(m),
        0 <= i < reported(matcher, opts, data).len(),
        reported(matcher, opts, data)[i].is_match,
    ensures
        ({
            let bare = SearchOptions { before: 0, after: 0, max_count: None, ..opts };
            let every = reported(matcher, bare, data);
            exists|k: int|
                0 <= k < m && k < every.len() && (#[trigger] every[k]).number == reported(
                    matcher,
                    opts,
                    data,
                )[i].number
        }),
{
    let n = reported(matcher, opts, data)[i].number;
    law_report_is_of_the_text(matcher, opts, data, i);
    law_context_is_a_window(matcher, opts, data, n);
    let bare = SearchOptions { before: 0, after: 0, ..opts };
    let plain = reported(matcher, bare, data);
    let every = reported(
        matcher,
        SearchOptions { before: 0, after: 0, max_count: None, ..opts },
        data,
    );
    law_max_count_keeps_the_first(matcher, bare, data, m);
    let k = choose|k: int| 0 <= k < plain.len() && (#[trigger] plain[k]).number == n;
    assert(plain[k] == every[k]);
}

/// -v: exactly the lines that are not reported otherwise, with nothing marked on
/// them.
pub proof fn law_invert_reports_the_others(
    matcher: Matcher,
    opts: SearchOptions,
    data: Seq<u8>,
    n: nat,
)
    requires
        !is_binary(data),
        !opts.matches_only,
        !opts.only_matching,
        opts.max_count is None,
        opts.before == 0 && opts.after == 0,
        line_text(data, 0, 1, n) is Some,
    ensures
        has_line(reported(matcher, SearchOptions { invert: true, ..opts }, data), n)
            <==> !has_line(reported(matcher, SearchOptions { invert: false, ..opts }, data), n),
        forall|i: int|
            0 <= i < reported(matcher, SearchOptions { invert: true, ..opts }, data).len() && (
            #[trigger] reported(matcher, SearchOptions { invert: true, ..opts }, data)[i]).number
                == n ==> reported(
                matcher,
                SearchOptions { invert: true, ..opts },
                data,
            )[i].spans.len() == 0 && reported(
                matcher,
                SearchOptions { invert: true, ..opts },
                data,
            )[i].is_match,
{
    let spans = matches_in(matcher.regex, data, opts.multiline);
    let (f, g) = (if_touched(data, spans), if_untouched(data, spans));
    let ls = lemma_line_of(data, 0, 1, n, f);
    let ms = lemma_line_of(data, 0, 1, n, g);
    assert(ls == ms);
    let le = line_end(data, ls);
    let (a, b) = (
        reported(matcher, SearchOptions { invert: false, ..opts }, data),
        reported(matcher, SearchOptions { invert: true, ..opts }, data),
    );
    assert(a == walk(data, 0, 1, f));
    assert(b == walk(data, 0, 1, g));
    if some_touches(spans, ls, le) {
        let i = choose|i: int| 0 <= i < a.len() && a[i] == f(ls, le, n)[0];
        assert(a[i].number == n);
    } else {
        let i = choose|i: int| 0 <= i < b.len() && b[i] == g(ls, le, n)[0];
        assert(b[i].number == n);
    }
}

} // verus!
