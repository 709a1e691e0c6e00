//! Lines searched one by one.

use crate::search::lines::{
    if_touched, last_of, lemma_line_end, lemma_pieces_none, lemma_walk_ascends, line_end,
    line_text, match_row, one_each, ordered, pieces, scanned, some_touches, touches, walk, Row,
};
use crate::search::matcher::{finds_in_lines, line_mode, line_spans, moved, regex_spans};
use regex::bytes::Regex;
use vstd::prelude::*;

verus! {

/// Those of the first `n` matches that are not empty.
pub open spec fn not_empty(spans: Seq<(usize, usize)>, n: int) -> Seq<(usize, usize)>
    decreases n,
{
    if n <= 0 {
        Seq::empty()
    } else if spans[n - 1].0 < spans[n - 1].1 {
        not_empty(spans, n - 1).push(spans[n - 1])
    } else {
        not_empty(spans, n - 1)
    }
}

/// Where the matches of the lines from `start` on lie.
proof fn lemma_line_spans_lie(re: Regex, data: Seq<u8>, start: int)
    requires
        finds_in_lines(re, data, start),
        0 <= start,
        data.len() <= usize::MAX,
    ensures
        forall|i: int|
            0 <= i < line_spans(re, data, start).len() ==> start <= (#[trigger] line_spans(
                re,
                data,
                start,
            )[i]).0 <= line_spans(re, data, start)[i].1 <= data.len(),
    decreases data.len() + 1 - start,
{
    if start < data.len() {
        lemma_line_end(data, start);
        let end = line_end(data, start);
        let own = regex_spans(re, data.subrange(start, end));
        let here = moved(own, start);
        let rest = line_spans(re, data, end + 1);
        let all = line_spans(re, data, start);
        lemma_line_spans_lie(re, data, end + 1);
        assert forall|i: int| 0 <= i < all.len() implies start <= (#[trigger] all[i]).0
            <= all[i].1 <= data.len() by {
            if i < here.len() {
                assert(all[i] == here[i]);
                assert(own[i].0 <= own[i].1);
            } else {
                assert(all[i] == rest[i - here.len()]);
            }
        }
    }
}

proof fn lemma_pieces_front(
    a: Seq<(usize, usize)>,
    b: Seq<(usize, usize)>,
    ls: int,
    le: int,
    n: int,
)
    requires
        0 <= n <= a.len(),
    ensures
        pieces(a + b, ls, le, n) == pieces(a, ls, le, n),
    decreases n,
{
    if n > 0 {
        lemma_pieces_front(a, b, ls, le, n - 1);
        assert((a + b)[n - 1] == a[n - 1]);
    }
}

/// Matches that do not touch the line in front change nothing.
proof fn lemma_pieces_behind(
    a: Seq<(usize, usize)>,
    b: Seq<(usize, usize)>,
    ls: int,
    le: int,
    n: int,
)
    requires
        0 <= n <= b.len(),
        pieces(a, ls, le, a.len() as int) == Seq::<(usize, usize)>::empty(),
    ensures
        pieces(a + b, ls, le, a.len() + n) == pieces(b, ls, le, n),
    decreases n,
{
    if n > 0 {
        lemma_pieces_behind(a, b, ls, le, n - 1);
        assert((a + b)[a.len() + n - 1] == b[n - 1]);
    } else {
        lemma_pieces_front(a, b, ls, le, a.len() as int);
    }
}

proof fn lemma_pieces_own(own: Seq<(usize, usize)>, ls: int, le: int, n: int)
    requires
        0 <= n <= own.len(),
        0 <= ls <= le <= usize::MAX,
        ordered(own, (le - ls) as nat),
    ensures
        pieces(moved(own, ls), ls, le, n) == not_empty(own, n),
    decreases n,
{
    if n > 0 {
        lemma_pieces_own(own, ls, le, n - 1);
        assert(own[n - 1].0 <= own[n - 1].1);
        let m = moved(own, ls)[n - 1];
        assert(m.0 == own[n - 1].0 + ls && m.1 == own[n - 1].1 + ls);
    }
}

proof fn lemma_own_line(re: Regex, data: Seq<u8>, start: int, ls: int)
    requires
        finds_in_lines(re, data, start),
        data.len() <= usize::MAX,
        0 <= start <= ls < data.len(),
        start == ls || data[ls - 1] == 10,
    ensures
        ({
            let le = line_end(data, ls);
            let own = regex_spans(re, data.subrange(ls, le));
            let all = line_spans(re, data, start);
            &&& some_touches(all, ls, le) <==> own.len() > 0
            &&& pieces(all, ls, le, all.len() as int) == not_empty(own, own.len() as int)
        }),
    decreases data.len() + 1 - start,
{
    lemma_line_end(data, start);
    lemma_line_end(data, ls);
    let le = line_end(data, ls);
    let own = regex_spans(re, data.subrange(ls, le));
    let end = line_end(data, start);
    let first = regex_spans(re, data.subrange(start, end));
    let here = moved(first, start);
    let rest = line_spans(re, data, end + 1);
    let all = line_spans(re, data, start);
    assert(all == here + rest);
    lemma_line_spans_lie(re, data, start);
    lemma_line_spans_lie(re, data, end + 1);
    assert forall|i: int| 0 <= i < here.len() implies start <= (#[trigger] here[i]).0
        <= here[i].1 <= end by {
        assert(first[i].0 <= first[i].1);
    }
    if start == ls {
        lemma_pieces_own(own, ls, le, own.len() as int);
        lemma_pieces_front(here, rest, ls, le, here.len() as int);
        assert forall|i: int| here.len() <= i < all.len() implies !#[trigger] touches(
            all[i],
            ls,
            le,
        ) by {
            assert(all[i] == rest[i - here.len()]);
        }
        lemma_pieces_none(all, ls, le, here.len() as int, all.len() as int);
        if own.len() > 0 {
            assert(all[0] == here[0]);
            assert(touches(all[0], ls, le));
        } else {
            assert forall|i: int| 0 <= i < all.len() implies !#[trigger] touches(
                all[i],
                ls,
                le,
            ) by {}
        }
    } else {
        assert(end < ls);
        lemma_own_line(re, data, end + 1, ls);
        assert forall|i: int| 0 <= i < here.len() implies !#[trigger] touches(
            here[i],
            ls,
            le,
        ) by {
            assert(last_of(here[i]) <= end);
        }
        lemma_pieces_none(here, ls, le, 0, here.len() as int);
        lemma_pieces_behind(here, rest, ls, le, rest.len() as int);
        if some_touches(rest, ls, le) {
            let i = choose|i: int| 0 <= i < rest.len() && #[trigger] touches(rest[i], ls, le);
            assert(all[here.len() + i] == rest[i]);
            assert(touches(all[here.len() + i], ls, le));
        }
        if some_touches(all, ls, le) {
            let i = choose|i: int| 0 <= i < all.len() && #[trigger] touches(all[i], ls, le);
            if i < here.len() {
                assert(all[i] == here[i]);
            } else {
                assert(all[i] == rest[i - here.len()]);
                assert(touches(rest[i - here.len()], ls, le));
            }
        }
    }
}

/// Searching is line by line: a line is touched exactly when it matches by
/// itself, and what is marked on it are its own matches.
pub proof fn law_line_matches_by_itself(re: Regex, data: Seq<u8>, ls: int)
    requires
        finds_in_lines(re, data, 0),
        data.len() <= usize::MAX,
        0 <= ls < data.len(),
        ls == 0 || data[ls - 1] == 10,
    ensures
        ({
            let le = line_end(data, ls);
            let own = regex_spans(re, data.subrange(ls, le));
            let all = line_spans(re, data, 0);
            &&& some_touches(all, ls, le) <==> own.len() > 0
            &&& pieces(all, ls, le, all.len() as int) == not_empty(own, own.len() as int)
        }),
{
    lemma_own_line(re, data, 0, ls);
}

/// Where line `n` begins, counted from the line that begins at `start` as line
/// `from`.
pub open spec fn line_start(data: Seq<u8>, start: int, from: nat, n: nat) -> int
    decreases data.len() + 1 - start,
{
    if start < 0 || start >= data.len() || n <= from {
        start
    } else {
        proof {
            lemma_line_end(data, start);
        }
        line_start(data, line_end(data, start) + 1, from + 1, n)
    }
}

/// Where the line with the number `n` begins, and which row a walk has of it.
pub proof fn lemma_line_of(
    data: Seq<u8>,
    start: int,
    from: nat,
    n: nat,
    f: spec_fn(int, int, nat) -> Seq<Row>,
) -> (ls: int)
    requires
        one_each(f),
        0 <= start,
        0 < start < data.len() ==> data[start - 1] == 10,
        line_text(data, start, from, n) is Some,
    ensures
        ls == line_start(data, start, from, n),
        start <= ls < data.len(),
        ls == 0 || data[ls - 1] == 10,
        line_text(data, start, from, n) == Some(data.subrange(ls, line_end(data, ls))),
        f(ls, line_end(data, ls), n).len() == 1 ==> walk(data, start, from, f).contains(
            f(ls, line_end(data, ls), n)[0],
        ),
        forall|i: int|
            0 <= i < walk(data, start, from, f).len() && (#[trigger] walk(
                data,
                start,
                from,
                f,
            )[i]).number == n ==> f(ls, line_end(data, ls), n).len() == 1 && walk(
                data,
                start,
                from,
                f,
            )[i] == f(ls, line_end(data, ls), n)[0],
    decreases data.len() + 1 - start,
{
    lemma_line_end(data, start);
    let end = line_end(data, start);
    let here = f(start, end, from);
    let rest = walk(data, end + 1, from + 1, f);
    let all = walk(data, start, from, f);
    assert(all == here + rest);
    lemma_walk_ascends(data, end + 1, from + 1, f);
    if n == from {
        if here.len() == 1 {
            assert(all[0] == here[0]);
        }
        assert forall|i: int| 0 <= i < all.len() && (#[trigger] all[i]).number == n implies
            here.len() == 1 && all[i] == here[0] by {
            if i >= here.len() {
                assert(all[i] == rest[i - here.len()]);
            }
        }
        start
    } else {
        let ls = lemma_line_of(data, end + 1, from + 1, n, f);
        let own = f(ls, line_end(data, ls), n);
        if own.len() == 1 {
            let i = choose|i: int| 0 <= i < rest.len() && rest[i] == own[0];
            assert(all[here.len() + i] == own[0]);
        }
        assert forall|i: int| 0 <= i < all.len() && (#[trigger] all[i]).number == n implies
            own.len() == 1 && all[i] == own[0] by {
            if i >= here.len() {
                assert(all[i] == rest[i - here.len()]);
            } else {
                assert(all[i] == here[i]);
            }
        }
        ls
    }
}

/// Searching is line by line: a line is reported exactly when it matches by
/// itself, with its own matches marked.
pub proof fn law_line_is_reported_when_it_matches(re: Regex, data: Seq<u8>, n: nat)
    requires
        finds_in_lines(re, data, 0),
        data.len() <= usize::MAX,
        line_text(data, 0, 1, n) is Some,
    ensures
        ({
            let text = line_text(data, 0, 1, n)->0;
            let own = regex_spans(re, text);
            let all = scanned(data, line_spans(re, data, 0), line_mode(false, None, 0, 0));
            &&& own.len() > 0 <==> exists|i: int|
                0 <= i < all.len() && (#[trigger] all[i]).number == n
            &&& forall|i: int|
                0 <= i < all.len() && (#[trigger] all[i]).number == n ==> all[i].text == text
                    && all[i].is_match && all[i].spans == not_empty(own, own.len() as int)
        }),
{
    let spans = line_spans(re, data, 0);
    let f = if_touched(data, spans);
    let all = walk(data, 0, 1, f);
    let ls = lemma_line_of(data, 0, 1, n, f);
    let le = line_end(data, ls);
    lemma_own_line(re, data, 0, ls);
    assert(scanned(data, spans, line_mode(false, None, 0, 0)) == all);
    if some_touches(spans, ls, le) {
        assert(f(ls, le, n) == seq![match_row(data, spans, ls, le, n)]);
        let i = choose|i: int| 0 <= i < all.len() && all[i] == f(ls, le, n)[0];
        assert(all[i].number == n);
    }
}

proof fn lemma_spans_stay(re: Regex, data: Seq<u8>, start: int, i: int, k: int)
    requires
        finds_in_lines(re, data, start),
        data.len() <= usize::MAX,
        0 <= start,
        0 <= i < line_spans(re, data, start).len(),
        line_spans(re, data, start)[i].0 <= k < line_spans(re, data, start)[i].1,
    ensures
        data[k] != 10,
    decreases data.len() + 1 - start,
{
    lemma_line_end(data, start);
    let end = line_end(data, start);
    let first = regex_spans(re, data.subrange(start, end));
    let here = moved(first, start);
    if i < here.len() {
        assert(line_spans(re, data, start)[i] == here[i]);
        assert(first[i].0 <= first[i].1);
    } else {
        assert(line_spans(re, data, start)[i] == line_spans(re, data, end + 1)[i - here.len()]);
        lemma_spans_stay(re, data, end + 1, i - here.len(), k);
    }
}

/// Searching is line by line: no match holds a newline.
pub proof fn law_matches_stay_on_lines(re: Regex, data: Seq<u8>, i: int, k: int)
    requires
        finds_in_lines(re, data, 0),
        data.len() <= usize::MAX,
        0 <= i < line_spans(re, data, 0).len(),
        line_spans(re, data, 0)[i].0 <= k < line_spans(re, data, 0)[i].1,
    ensures
        data[k] != 10,
{
    lemma_spans_stay(re, data, 0, i, k);
}

} // verus!
