//! Where the matches of a reported line lie.

use crate::search::lines::{
    at_least, at_most, capped, chosen_lines, if_touched, if_untouched, if_wanted,
    law_scan_reports_real_lines, line_end, lemma_line_end, match_texts, numbered, on_first_lines,
    one_each, ordered, pieces, scanned, touched, untouched, walk, Row, ScanMode,
};
use vstd::prelude::*;

verus! {

/// Whether every match of a row is a part of its text, and not empty.
pub open spec fn spans_lie_in(row: Row) -> bool {
    forall|k: int|
        0 <= k < row.spans.len() ==> (#[trigger] row.spans[k]).0 < row.spans[k].1
            && row.spans[k].1 <= row.text.len()
}

proof fn lemma_pieces_lie(spans: Seq<(usize, usize)>, ls: int, le: int, n: int)
    requires
        0 <= ls <= le,
        n <= spans.len(),
    ensures
        forall|k: int|
            0 <= k < pieces(spans, ls, le, n).len() ==> (#[trigger] pieces(spans, ls, le, n)[k]).0
                < pieces(spans, ls, le, n)[k].1 && pieces(spans, ls, le, n)[k].1 <= le - ls,
    decreases n,
{
    if n > 0 {
        lemma_pieces_lie(spans, ls, le, n - 1);
        let from = at_least(spans[n - 1].0 as int, ls);
        let to = at_most(spans[n - 1].1 as int, le);
        let (before, now) = (pieces(spans, ls, le, n - 1), pieces(spans, ls, le, n));
        assert forall|k: int| 0 <= k < now.len() implies (#[trigger] now[k]).0 < now[k].1
            && now[k].1 <= le - ls by {
            if k < before.len() {
                assert(now[k] == before[k]);
            } else {
                assert(now[k] == ((from - ls) as usize, (to - ls) as usize));
            }
        }
    }
}

/// Which line a row of a walk comes from.
proof fn lemma_walk_row(
    data: Seq<u8>,
    start: int,
    n: nat,
    f: spec_fn(int, int, nat) -> Seq<Row>,
    i: int,
) -> (w: (int, int, nat))
    requires
        one_each(f),
        0 <= i < walk(data, start, n, f).len(),
    ensures
        0 <= w.0 <= w.1 <= data.len(),
        f(w.0, w.1, w.2).len() == 1,
        f(w.0, w.1, w.2)[0] == walk(data, start, n, f)[i],
    decreases data.len() + 1 - start,
{
    lemma_line_end(data, start);
    let end = line_end(data, start);
    let here = f(start, end, n);
    if i < here.len() {
        (start, end, n)
    } else {
        lemma_walk_row(data, end + 1, n + 1, f, i - here.len())
    }
}

proof fn lemma_texts_lie(data: Seq<u8>, s: Seq<(usize, usize)>, n: int)
    requires
        n <= s.len(),
        forall|k: int|
            0 <= k < s.len() ==> (#[trigger] s[k]).0 <= s[k].1 && s[k].1 <= data.len(),
    ensures
        forall|i: int|
            0 <= i < match_texts(data, s, n).len() ==> spans_lie_in(
                #[trigger] match_texts(data, s, n)[i],
            ),
    decreases n,
{
    if n > 0 {
        lemma_texts_lie(data, s, n - 1);
        let (before, now) = (match_texts(data, s, n - 1), match_texts(data, s, n));
        assert(s[n - 1].0 <= s[n - 1].1);
        assert forall|i: int| 0 <= i < now.len() implies spans_lie_in(#[trigger] now[i]) by {
            if i < before.len() {
                assert(now[i] == before[i]);
            }
        }
    }
}

proof fn lemma_first_lines_lie(list: Seq<Row>, max: Option<u64>, n: int)
    requires
        n <= list.len(),
        forall|i: int| 0 <= i < list.len() ==> spans_lie_in(#[trigger] list[i]),
    ensures
        forall|i: int|
            0 <= i < on_first_lines(list, max, n).len() ==> spans_lie_in(
                #[trigger] on_first_lines(list, max, n)[i],
            ),
    decreases n,
{
    if n > 0 {
        lemma_first_lines_lie(list, max, n - 1);
        let (before, now) = (on_first_lines(list, max, n - 1), on_first_lines(list, max, n));
        assert forall|i: int| 0 <= i < now.len() implies spans_lie_in(#[trigger] now[i]) by {
            if i < before.len() {
                assert(now[i] == before[i]);
            } else {
                assert(now[i] == list[n - 1]);
            }
        }
    }
}

proof fn lemma_chosen_lie(data: Seq<u8>, spans: Seq<(usize, usize)>, mode: ScanMode, i: int)
    requires
        0 <= i < chosen_lines(data, spans, mode).len(),
    ensures
        spans_lie_in(chosen_lines(data, spans, mode)[i]),
{
    let all = if mode.invert {
        untouched(data, spans)
    } else {
        touched(data, spans)
    };
    assert(capped(all, mode.max_count)[i] == all[i]);
    let f = if mode.invert {
        if_untouched(data, spans)
    } else {
        if_touched(data, spans)
    };
    let w = lemma_walk_row(data, 0, 1, f, i);
    lemma_pieces_lie(spans, w.0, w.1, spans.len() as int);
}

pub proof fn lemma_numbered_is(list: Seq<Row>, n: nat, k: int)
    requires
        k <= list.len(),
    ensures
        numbered(list, n, k) matches Some(i) ==> 0 <= i < k && list[i].number == n,
    decreases k,
{
    if k > 0 {
        lemma_numbered_is(list, n, k - 1);
    }
}

/// Every match that a scan reports on a line is a part of the line's text and
/// not empty, so that it can be marked there.
pub proof fn law_scan_spans_lie_in_lines(
    data: Seq<u8>,
    spans: Seq<(usize, usize)>,
    mode: ScanMode,
    i: int,
)
    requires
        ordered(spans, data.len()),
        0 <= i < scanned(data, spans, mode).len(),
    ensures
        spans_lie_in(scanned(data, spans, mode)[i]),
{
    let row = scanned(data, spans, mode)[i];
    if mode.matches_only {
    } else if mode.only_matching && !mode.invert {
        let texts = match_texts(data, spans, spans.len() as int);
        lemma_texts_lie(data, spans, spans.len() as int);
        lemma_first_lines_lie(texts, mode.max_count, texts.len() as int);
    } else {
        let lines = chosen_lines(data, spans, mode);
        if (mode.before == 0 && mode.after == 0) || lines.len() == 0 {
            lemma_chosen_lie(data, spans, mode, i);
        } else {
            let h = if_wanted(data, lines, mode.before as nat, mode.after as nat);
            let w = lemma_walk_row(data, 0, 1, h, i);
            lemma_numbered_is(lines, w.2, lines.len() as int);
            match numbered(lines, w.2, lines.len() as int) {
                Some(j) => {
                    let plain = ScanMode { before: 0, after: 0, ..mode };
                    assert(scanned(data, spans, plain) == lines);
                    lemma_chosen_lie(data, spans, mode, j);
                    law_scan_reports_real_lines(data, spans, plain, j);
                    law_scan_reports_real_lines(data, spans, mode, i);
                    assert(row.text == lines[j].text);
                },
                None => {},
            }
        }
    }
}

} // verus!
