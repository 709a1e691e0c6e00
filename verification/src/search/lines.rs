//! From match offsets to lines.

use vstd::prelude::*;
use vstd::slice::slice_subrange;

verus! {

/// A line of output.
#[derive(Debug, PartialEq, Eq)]
pub struct MatchLine {
    pub line_number: u64,
    /// Byte ranges of matches within `line` (empty for context lines).
    pub spans: Vec<(usize, usize)>,
    pub line: Vec<u8>,
    /// True for a line the pattern actually matched, false for a context line
    /// pulled in by -A/-B/-C.
    pub is_match: bool,
    /// How many matches begin on the line.
    pub starts: usize,
}

/// The mathematical form of `MatchLine`.
pub struct Row {
    pub number: nat,
    pub spans: Seq<(usize, usize)>,
    pub text: Seq<u8>,
    pub is_match: bool,
    pub starts: nat,
}

impl View for MatchLine {
    type V = Row;

    open spec fn view(&self) -> Row {
        Row {
            number: self.line_number as nat,
            spans: self.spans@,
            text: self.line@,
            is_match: self.is_match,
            starts: self.starts as nat,
        }
    }
}

/// The views of lines.
pub open spec fn rows(lines: Seq<MatchLine>) -> Seq<Row> {
    Seq::new(lines.len(), |i: int| lines[i]@)
}

/// Where the line that `start` is on ends: at the next newline, or the end.
pub open spec fn line_end(data: Seq<u8>, start: int) -> int
    decreases data.len() - start,
{
    if start >= data.len() {
        data.len() as int
    } else if data[start] == 10 {
        start
    } else {
        line_end(data, start + 1)
    }
}

/// What `f` gives for each line from offset `start` on, the first of them
/// being line `n`. `f` gets the offsets of the line's first byte and of its
/// end, and its number. Behind a final newline there is no line.
pub open spec fn walk(
    data: Seq<u8>,
    start: int,
    n: nat,
    f: spec_fn(int, int, nat) -> Seq<Row>,
) -> Seq<Row>
    decreases data.len() + 1 - start,
{
    if start < 0 || start >= data.len() {
        Seq::empty()
    } else {
        proof {
            lemma_line_end(data, start);
        }
        let end = line_end(data, start);
        f(start, end, n) + walk(data, end + 1, n + 1, f)
    }
}

pub proof fn lemma_line_end(data: Seq<u8>, start: int)
    requires
        0 <= start <= data.len(),
    ensures
        start <= line_end(data, start) <= data.len(),
        line_end(data, start) < data.len() ==> data[line_end(data, start)] == 10,
        forall|i: int| start <= i < line_end(data, start) ==> data[i] != 10,
    decreases data.len() - start,
{
    if start < data.len() && data[start] != 10 {
        lemma_line_end(data, start + 1);
    }
}

/// Matches in order: each within the text and none before the end of another.
pub open spec fn ordered(spans: Seq<(usize, usize)>, len: nat) -> bool {
    &&& forall|i: int|
        0 <= i < spans.len() ==> (#[trigger] spans[i]).0 <= spans[i].1 && spans[i].1 <= len
    &&& forall|i: int, j: int|
        0 <= i < j < spans.len() ==> (#[trigger] spans[i]).1 <= (#[trigger] spans[j]).0
}

/// The last position of a match.
pub open spec fn last_of(span: (usize, usize)) -> int {
    if span.1 > span.0 {
        span.1 - 1
    } else {
        span.0 as int
    }
}

/// Whether a match touches the line from `ls` to `le`.
pub open spec fn touches(span: (usize, usize), ls: int, le: int) -> bool {
    span.0 <= le && last_of(span) >= ls
}

pub open spec fn some_touches(spans: Seq<(usize, usize)>, ls: int, le: int) -> bool {
    exists|i: int| 0 <= i < spans.len() && #[trigger] touches(spans[i], ls, le)
}

pub open spec fn at_least(a: int, b: int) -> int {
    if a < b {
        b
    } else {
        a
    }
}

pub open spec fn at_most(a: int, b: int) -> int {
    if a > b {
        b
    } else {
        a
    }
}

/// The parts of the first `n` matches that lie on the line, relative to it.
pub open spec fn pieces(spans: Seq<(usize, usize)>, ls: int, le: int, n: int) -> Seq<
    (usize, usize),
>
    decreases n,
{
    if n <= 0 {
        Seq::empty()
    } else {
        let from = at_least(spans[n - 1].0 as int, ls);
        let to = at_most(spans[n - 1].1 as int, le);
        if from < to {
            pieces(spans, ls, le, n - 1).push(((from - ls) as usize, (to - ls) as usize))
        } else {
            pieces(spans, ls, le, n - 1)
        }
    }
}

/// How many of the first `n` matches begin on the line.
pub open spec fn beginnings(spans: Seq<(usize, usize)>, ls: int, le: int, n: int) -> nat
    decreases n,
{
    if n <= 0 {
        0
    } else if ls <= spans[n - 1].0 <= le {
        beginnings(spans, ls, le, n - 1) + 1
    } else {
        beginnings(spans, ls, le, n - 1)
    }
}

/// The row of a line that a match touches.
pub open spec fn match_row(
    data: Seq<u8>,
    spans: Seq<(usize, usize)>,
    ls: int,
    le: int,
    n: nat,
) -> Row {
    Row {
        number: n,
        spans: pieces(spans, ls, le, spans.len() as int),
        text: data.subrange(ls, le),
        is_match: true,
        starts: beginnings(spans, ls, le, spans.len() as int),
    }
}

/// The lines that a match touches.
pub open spec fn touched(data: Seq<u8>, spans: Seq<(usize, usize)>) -> Seq<Row> {
    walk(data, 0, 1, if_touched(data, spans))
}

pub open spec fn if_touched(data: Seq<u8>, spans: Seq<(usize, usize)>) -> spec_fn(
    int,
    int,
    nat,
) -> Seq<Row> {
    |ls: int, le: int, n: nat|
        if some_touches(spans, ls, le) {
            seq![match_row(data, spans, ls, le, n)]
        } else {
            Seq::empty()
        }
}

/// `memchr::memchr` gives the first position of a byte, if it occurs.
pub assume_specification[ memchr::memchr ](needle: u8, haystack: &[u8]) -> (r: Option<usize>)
    ensures
        match r {
            Some(i) => i < haystack@.len() && haystack@[i as int] == needle && forall|j: int|
                0 <= j < i ==> haystack@[j] != needle,
            None => forall|j: int| 0 <= j < haystack@.len() ==> haystack@[j] != needle,
        },
;

proof fn lemma_line_end_is(data: Seq<u8>, start: int, end: int)
    requires
        0 <= start <= end <= data.len(),
        end < data.len() ==> data[end] == 10,
        forall|i: int| start <= i < end ==> data[i] != 10,
    ensures
        line_end(data, start) == end,
    decreases end - start,
{
    if start < end {
        lemma_line_end_is(data, start + 1, end);
    }
}

/// Where the line that `start` is on ends.
pub fn find_line_end(data: &[u8], start: usize) -> (end: usize)
    requires
        start <= data@.len(),
    ensures
        end == line_end(data@, start as int),
        start <= end <= data@.len(),
{
    let rest = slice_subrange(data, start, data.len());
    let end: usize = match memchr::memchr(10, rest) {
        Some(p) => start + p,
        None => data.len(),
    };
    proof {
        assert forall|i: int| start <= i < end implies data@[i] != 10 by {
            assert(rest@[i - start] == data@[i]);
        }
        lemma_line_end_is(data@, start as int, end as int);
    }
    end
}

pub proof fn lemma_pieces_none(spans: Seq<(usize, usize)>, ls: int, le: int, a: int, b: int)
    requires
        0 <= a <= b <= spans.len(),
        forall|i: int| a <= i < b ==> !#[trigger] touches(spans[i], ls, le),
        forall|i: int| 0 <= i < spans.len() ==> (#[trigger] spans[i]).0 <= spans[i].1,
        ls <= le,
    ensures
        pieces(spans, ls, le, b) == pieces(spans, ls, le, a),
        beginnings(spans, ls, le, b) == beginnings(spans, ls, le, a),
    decreases b - a,
{
    if a < b {
        lemma_pieces_none(spans, ls, le, a, b - 1);
        assert(!touches(spans[b - 1], ls, le));
        assert(spans[b - 1].0 <= spans[b - 1].1);
    }
}

/// Copies part of a text.
pub fn part_of(data: &[u8], from: usize, to: usize) -> (r: Vec<u8>)
    requires
        from <= to <= data@.len(),
    ensures
        r@ == data@.subrange(from as int, to as int),
{
    let mut r: Vec<u8> = Vec::new();
    for i in from..to
        invariant
            from <= to <= data@.len(),
            r@ == data@.subrange(from as int, i as int),
    {
        r.push(data[i]);
        assert(data@.subrange(from as int, i as int).push(data@[i as int]) =~= data@.subrange(
            from as int,
            i as int + 1,
        ));
    }
    r
}

/// From the first match `p` that does not end before the line: the row of the
/// line if a match touches it, and the first match that goes on behind it.
fn row_at(
    data: &[u8],
    spans: &Vec<(usize, usize)>,
    p: usize,
    ls: usize,
    le: usize,
    n: u64,
) -> (r: (Option<MatchLine>, usize))
    requires
        ordered(spans@, data@.len()),
        p <= spans@.len(),
        ls <= le <= data@.len(),
        forall|i: int| 0 <= i < p ==> last_of(#[trigger] spans@[i]) < ls,
        forall|i: int| p <= i < spans@.len() ==> last_of(#[trigger] spans@[i]) >= ls,
    ensures
        match r.0 {
            Some(line) => some_touches(spans@, ls as int, le as int) && line@ == match_row(
                data@,
                spans@,
                ls as int,
                le as int,
                n as nat,
            ),
            None => !some_touches(spans@, ls as int, le as int),
        },
        p <= r.1 <= spans@.len(),
        forall|i: int| 0 <= i < r.1 ==> last_of(#[trigger] spans@[i]) <= le,
        forall|i: int| r.1 <= i < spans@.len() ==> last_of(#[trigger] spans@[i]) > le,
{
    let ghost (lo, hi) = (ls as int, le as int);
    let mut found: Vec<(usize, usize)> = Vec::new();
    let mut starts: usize = 0;
    let mut k: usize = p;
    proof {
        assert forall|i: int| 0 <= i < p implies !#[trigger] touches(spans@[i], lo, hi) by {
            assert(last_of(spans@[i]) < ls);
        }
        lemma_pieces_none(spans@, lo, hi, 0, p as int);
    }
    while k < spans.len() && spans[k].0 <= le
        invariant
            ordered(spans@, data@.len()),
            p <= k <= spans@.len(),
            lo == ls,
            hi == le,
            ls <= le <= data@.len(),
            forall|i: int| p <= i < spans@.len() ==> last_of(#[trigger] spans@[i]) >= ls,
            forall|i: int| p <= i < k ==> (#[trigger] spans@[i]).0 <= le,
            found@ == pieces(spans@, lo, hi, k as int),
            starts == beginnings(spans@, lo, hi, k as int),
            starts <= k,
        decreases spans@.len() - k,
    {
        let (s, e): (usize, usize) = spans[k];
        let from: usize = if s < ls {
            ls
        } else {
            s
        };
        let to: usize = if e > le {
            le
        } else {
            e
        };
        if from < to {
            found.push((from - ls, to - ls));
        }
        if ls <= s {
            starts = starts + 1;
        }
        k = k + 1;
    }
    let ghost stop = k as int;
    proof {
        assert forall|i: int| stop <= i < spans@.len() implies !#[trigger] touches(
            spans@[i],
            lo,
            hi,
        ) by {
            if i > stop {
                assert(spans@[stop].1 <= spans@[i].0);
                assert(spans@[stop].0 <= spans@[stop].1);
            }
        }
        lemma_pieces_none(spans@, lo, hi, stop, spans@.len() as int);
        if p < stop {
            assert(touches(spans@[p as int], lo, hi));
        } else {
            assert forall|i: int| 0 <= i < spans@.len() implies !#[trigger] touches(
                spans@[i],
                lo,
                hi,
            ) by {
                if i < p {
                    assert(last_of(spans@[i]) < ls);
                }
            }
        }
    }
    // Only the last match on the line can go on behind it.
    let mut next: usize = k;
    if k > p {
        let (s, e): (usize, usize) = spans[k - 1];
        let end: usize = if e > s {
            e - 1
        } else {
            s
        };
        if end > le {
            next = k - 1;
        }
    }
    proof {
        assert forall|i: int| 0 <= i < next implies last_of(#[trigger] spans@[i]) <= le by {
            if i < p {
                assert(last_of(spans@[i]) < ls);
            } else if i < stop - 1 {
                assert(spans@[i].1 <= spans@[stop - 1].0);
                assert(spans@[stop - 1].0 <= le);
                assert(spans@[i].0 <= spans@[i].1);
            }
        }
        assert forall|i: int| next <= i < spans@.len() implies last_of(#[trigger] spans@[i])
            > le by {
            if i >= stop {
                assert(!touches(spans@[i], lo, hi));
                assert(last_of(spans@[i]) >= ls);
            }
        }
    }
    if k > p {
        (
            Some(
                MatchLine {
                    line_number: n,
                    spans: found,
                    line: part_of(data, ls, le),
                    is_match: true,
                    starts,
                },
            ),
            next,
        )
    } else {
        (None, next)
    }
}

proof fn lemma_walk_nothing(
    data: Seq<u8>,
    start: int,
    n: nat,
    f: spec_fn(int, int, nat) -> Seq<Row>,
)
    requires
        0 <= start,
        forall|ls: int, m: nat|
            start <= ls < data.len() ==> (#[trigger] f(ls, line_end(data, ls), m)) == Seq::<
                Row,
            >::empty(),
    ensures
        walk(data, start, n, f) == Seq::<Row>::empty(),
    decreases data.len() + 1 - start,
{
    if start < data.len() {
        lemma_line_end(data, start);
        let end = line_end(data, start);
        assert(f(start, line_end(data, start), n) == Seq::<Row>::empty());
        lemma_walk_nothing(data, end + 1, n + 1, f);
        assert(walk(data, start, n, f) =~= Seq::<Row>::empty());
    }
}

/// A position that is on a line: in the text, or at the end of a last line
/// without a newline.
pub open spec fn on_a_line(data: Seq<u8>, q: int) -> bool {
    0 <= q < data.len() || (q == data.len() && q > 0 && data[q - 1] != 10)
}

/// A walk that finds something on the line of `q` finds something.
proof fn lemma_walk_finds(
    data: Seq<u8>,
    start: int,
    n: nat,
    f: spec_fn(int, int, nat) -> Seq<Row>,
    q: int,
)
    requires
        0 <= start <= q,
        start < data.len(),
        on_a_line(data, q),
        forall|ls: int, le: int, m: nat| ls <= q <= le ==> (#[trigger] f(ls, le, m)).len() > 0,
    ensures
        walk(data, start, n, f).len() > 0,
    decreases data.len() + 1 - start,
{
    lemma_line_end(data, start);
    let end = line_end(data, start);
    if q <= end {
        assert(f(start, end, n).len() > 0);
    } else {
        assert(data[end] == 10);
        if q == data.len() {
            assert(end != q - 1);
        }
        lemma_walk_finds(data, end + 1, n + 1, f, q);
    }
}

/// Whether a match touches a line.
fn any_touched(data: &[u8], spans: &Vec<(usize, usize)>) -> (r: bool)
    requires
        ordered(spans@, data@.len()),
    ensures
        r == (touched(data@, spans@).len() > 0),
{
    let ghost f = if_touched(data@, spans@);
    if spans.len() == 0 {
        proof {
            lemma_walk_nothing(data@, 0, 1, f);
        }
        return false;
    }
    let q: usize = spans[0].0;
    let n: usize = data.len();
    assert(spans@[0].0 <= spans@[0].1);
    let r = q < n || (n > 0 && data[n - 1] != 10);
    proof {
        if r {
            assert(on_a_line(data@, q as int));
            assert forall|ls: int, le: int, m: nat| ls <= q <= le implies (#[trigger] f(
                ls,
                le,
                m,
            )).len() > 0 by {
                assert(touches(spans@[0], ls, le));
            }
            lemma_walk_finds(data@, 0, 1, f, q as int);
        } else {
            assert forall|ls: int, m: nat| 0 <= ls < data@.len() implies (#[trigger] f(
                ls,
                line_end(data@, ls),
                m,
            )) == Seq::<Row>::empty() by {
                lemma_line_end(data@, ls);
                let le = line_end(data@, ls);
                assert(le < n);
                assert forall|i: int| 0 <= i < spans@.len() implies !#[trigger] touches(
                    spans@[i],
                    ls,
                    le,
                ) by {
                    if i > 0 {
                        assert(spans@[0].1 <= spans@[i].0);
                    }
                }
            }
            lemma_walk_nothing(data@, 0, 1, f);
        }
    }
    r
}

/// The lines that a match touches.
pub fn touched_lines(data: &[u8], spans: &Vec<(usize, usize)>) -> (r: Vec<MatchLine>)
    requires
        ordered(spans@, data@.len()),
        data@.len() < usize::MAX,
    ensures
        rows(r@) == touched(data@, spans@),
{
    let ghost f = if_touched(data@, spans@);
    let mut r: Vec<MatchLine> = Vec::new();
    let mut start: usize = 0;
    let mut n: u64 = 1;
    let mut p: usize = 0;
    assert(rows(r@) =~= Seq::<Row>::empty());
    assert(rows(r@) + walk(data@, 0, 1, f) =~= touched(data@, spans@));
    while start < data.len() && p < spans.len()
        invariant
            ordered(spans@, data@.len()),
            data@.len() < usize::MAX,
            f == if_touched(data@, spans@),
            start <= data@.len() + 1,
            1 <= n <= start + 1,
            p <= spans@.len(),
            forall|i: int| 0 <= i < p ==> last_of(#[trigger] spans@[i]) < start,
            forall|i: int| p <= i < spans@.len() ==> last_of(#[trigger] spans@[i]) >= start,
            rows(r@) + walk(data@, start as int, n as nat, f) == touched(data@, spans@),
        decreases data@.len() + 1 - start,
    {
        let end: usize = find_line_end(data, start);
        let ghost before = rows(r@);
        let ghost here = f(start as int, end as int, n as nat);
        let (row, next) = row_at(data, spans, p, start, end, n);
        match row {
            Some(line) => {
                r.push(line);
                assert(rows(r@) =~= before + here);
            },
            None => {
                assert(rows(r@) =~= before + here);
            },
        }
        assert(before + (here + walk(data@, end + 1, (n + 1) as nat, f)) =~= rows(r@) + walk(
            data@,
            end + 1,
            (n + 1) as nat,
            f,
        ));
        p = next;
        start = end + 1;
        n = n + 1;
    }
    proof {
        if start < data@.len() {
            assert forall|ls: int, m: nat| start <= ls < data@.len() implies (#[trigger] f(
                ls,
                line_end(data@, ls),
                m,
            )) == Seq::<Row>::empty() by {
                assert forall|i: int| 0 <= i < spans@.len() implies !#[trigger] touches(
                    spans@[i],
                    ls,
                    line_end(data@, ls),
                ) by {
                    assert(last_of(spans@[i]) < start);
                }
            }
            lemma_walk_nothing(data@, start as int, n as nat, f);
        }
        assert(rows(r@) + Seq::<Row>::empty() =~= rows(r@));
    }
    r
}

/// The lines that no match touches.
pub open spec fn untouched(data: Seq<u8>, spans: Seq<(usize, usize)>) -> Seq<Row> {
    walk(data, 0, 1, if_untouched(data, spans))
}

pub open spec fn if_untouched(data: Seq<u8>, spans: Seq<(usize, usize)>) -> spec_fn(
    int,
    int,
    nat,
) -> Seq<Row> {
    |ls: int, le: int, n: nat|
        if !some_touches(spans, ls, le) {
            seq![
                Row {
                    number: n,
                    spans: Seq::empty(),
                    text: data.subrange(ls, le),
                    is_match: true,
                    starts: 0,
                },
            ]
        } else {
            Seq::empty()
        }
}

/// The lines that no match touches.
pub fn untouched_lines(data: &[u8], spans: &Vec<(usize, usize)>) -> (r: Vec<MatchLine>)
    requires
        ordered(spans@, data@.len()),
        data@.len() < usize::MAX,
    ensures
        rows(r@) == untouched(data@, spans@),
{
    let ghost f = if_untouched(data@, spans@);
    let mut r: Vec<MatchLine> = Vec::new();
    let mut start: usize = 0;
    let mut n: u64 = 1;
    let mut p: usize = 0;
    assert(rows(r@) =~= Seq::<Row>::empty());
    assert(rows(r@) + walk(data@, 0, 1, f) =~= untouched(data@, spans@));
    while start < data.len()
        invariant
            ordered(spans@, data@.len()),
            data@.len() < usize::MAX,
            f == if_untouched(data@, spans@),
            start <= data@.len() + 1,
            1 <= n <= start + 1,
            p <= spans@.len(),
            forall|i: int| 0 <= i < p ==> last_of(#[trigger] spans@[i]) < start,
            forall|i: int| p <= i < spans@.len() ==> last_of(#[trigger] spans@[i]) >= start,
            rows(r@) + walk(data@, start as int, n as nat, f) == untouched(data@, spans@),
        decreases data@.len() + 1 - start,
    {
        let end: usize = find_line_end(data, start);
        let ghost before = rows(r@);
        let ghost here = f(start as int, end as int, n as nat);
        let (row, next) = row_at(data, spans, p, start, end, n);
        if row.is_none() {
            r.push(
                MatchLine {
                    line_number: n,
                    spans: Vec::new(),
                    line: part_of(data, start, end),
                    is_match: true,
                    starts: 0,
                },
            );
            assert(r@.last()@.spans =~= Seq::<(usize, usize)>::empty());
            assert(rows(r@) =~= before + here);
        } else {
            assert(rows(r@) =~= before + here);
        }
        assert(before + (here + walk(data@, end + 1, (n + 1) as nat, f)) =~= rows(r@) + walk(
            data@,
            end + 1,
            (n + 1) as nat,
            f,
        ));
        p = next;
        start = end + 1;
        n = n + 1;
    }
    assert(rows(r@) + Seq::<Row>::empty() =~= rows(r@));
    r
}

/// The number of newlines before `end`.
pub open spec fn newlines(data: Seq<u8>, end: int) -> nat
    decreases end,
{
    if end <= 0 {
        0
    } else if data[end - 1] == 10 {
        newlines(data, end - 1) + 1
    } else {
        newlines(data, end - 1)
    }
}

/// A row for each of the first `n` matches that is not empty, with the
/// matched text alone.
pub open spec fn match_texts(data: Seq<u8>, spans: Seq<(usize, usize)>, n: int) -> Seq<Row>
    decreases n,
{
    if n <= 0 {
        Seq::empty()
    } else {
        let before = match_texts(data, spans, n - 1);
        let (s, e) = spans[n - 1];
        if s < e {
            before.push(
                Row {
                    number: newlines(data, s as int) + 1,
                    spans: seq![(0usize, (e - s) as usize)],
                    text: data.subrange(s as int, e as int),
                    is_match: true,
                    starts: 1,
                },
            )
        } else {
            before
        }
    }
}

fn matched_texts(data: &[u8], spans: &Vec<(usize, usize)>) -> (r: Vec<MatchLine>)
    requires
        ordered(spans@, data@.len()),
        data@.len() < usize::MAX,
    ensures
        rows(r@) == match_texts(data@, spans@, spans@.len() as int),
{
    let mut r: Vec<MatchLine> = Vec::new();
    let mut n: u64 = 1;
    let mut counted_to: usize = 0;
    assert(rows(r@) =~= Seq::<Row>::empty());
    for i in 0..spans.len()
        invariant
            ordered(spans@, data@.len()),
            data@.len() < usize::MAX,
            counted_to <= data@.len(),
            i < spans@.len() ==> counted_to <= spans@[i as int].0,
            n == newlines(data@, counted_to as int) + 1,
            n <= counted_to + 1,
            rows(r@) == match_texts(data@, spans@, i as int),
    {
        let (s, e): (usize, usize) = spans[i];
        assert(s <= e <= data@.len());
        while counted_to < s
            invariant
                s <= data@.len(),
                data@.len() < usize::MAX,
                counted_to <= s,
                n == newlines(data@, counted_to as int) + 1,
                n <= counted_to + 1,
            decreases s - counted_to,
        {
            if data[counted_to] == 10 {
                n = n + 1;
            }
            counted_to = counted_to + 1;
        }
        let ghost before = rows(r@);
        if s < e {
            let len: usize = e - s;
            let span: Vec<(usize, usize)> = vec![(0, len)];
            assert(span@ =~= seq![(0usize, (e - s) as usize)]);
            r.push(
                MatchLine {
                    line_number: n,
                    spans: span,
                    line: part_of(data, s, e),
                    is_match: true,
                    starts: 1,
                },
            );
            assert(rows(r@) =~= before.push(r@.last()@));
        }
        if i + 1 < spans.len() {
            assert(spans@[i as int].1 <= spans@[i as int + 1].0);
        }
    }
    r
}

/// How many lines come before the line of row `i`.
pub open spec fn line_rank(list: Seq<Row>, i: int) -> nat
    decreases i,
{
    if i <= 0 {
        0
    } else if list[i].number == list[i - 1].number {
        line_rank(list, i - 1)
    } else {
        line_rank(list, i - 1) + 1
    }
}

/// Those of the first `n` rows that are on the first `max` lines.
pub open spec fn on_first_lines(list: Seq<Row>, max: Option<u64>, n: int) -> Seq<Row>
    decreases n,
{
    if n <= 0 {
        Seq::empty()
    } else if max matches Some(m) && line_rank(list, n - 1) >= m {
        on_first_lines(list, max, n - 1)
    } else {
        on_first_lines(list, max, n - 1).push(list[n - 1])
    }
}

proof fn lemma_rank_grows(list: Seq<Row>, i: int, j: int)
    requires
        0 <= i <= j < list.len(),
    ensures
        line_rank(list, i) <= line_rank(list, j) <= j,
    decreases j,
{
    if i < j {
        lemma_rank_grows(list, i, j - 1);
    } else if j > 0 {
        lemma_rank_grows(list, i - 1, j - 1);
    }
}

proof fn lemma_first_lines_stop(list: Seq<Row>, m: u64, k: int, n: int)
    requires
        0 <= k <= n <= list.len(),
        k < list.len() ==> line_rank(list, k) >= m,
    ensures
        on_first_lines(list, Some(m), n) == on_first_lines(list, Some(m), k),
    decreases n - k,
{
    if k < n {
        lemma_first_lines_stop(list, m, k, n - 1);
        lemma_rank_grows(list, k, n - 1);
    }
}

/// Keeps the rows on the first `max` lines.
fn keep_first_lines(list: &mut Vec<MatchLine>, max: Option<u64>)
    ensures
        rows(final(list)@) == on_first_lines(rows(old(list)@), max, old(list)@.len() as int),
{
    let ghost all = rows(list@);
    match max {
        None => {
            proof {
                lemma_first_lines_all(all, all.len() as int);
                assert(all.take(all.len() as int) =~= all);
            }
        },
        Some(m) => {
            let mut rank: u64 = 0;
            let mut k: usize = 0;
            while k < list.len()
                invariant_except_break
                    all == rows(list@),
                    k <= all.len(),
                    k < all.len() ==> rank == line_rank(all, k as int),
                    on_first_lines(all, Some(m), k as int) == all.take(k as int),
                    rank <= k,
                ensures
                    all == rows(list@),
                    k <= all.len(),
                    on_first_lines(all, Some(m), all.len() as int) == all.take(k as int),
                decreases all.len() - k,
            {
                if rank >= m {
                    proof {
                        lemma_first_lines_stop(all, m, k as int, all.len() as int);
                    }
                    break;
                }
                assert(all.take(k as int).push(all[k as int]) =~= all.take(k as int + 1));
                if k + 1 < list.len() {
                    assert(all[k as int].number == list@[k as int].line_number);
                    assert(all[k as int + 1].number == list@[k as int + 1].line_number);
                    if list[k].line_number != list[k + 1].line_number {
                        rank = rank + 1;
                    }
                }
                k = k + 1;
            }
            list.truncate(k);
            assert(rows(list@) =~= all.take(k as int));
        },
    }
}

proof fn lemma_first_lines_all(list: Seq<Row>, n: int)
    requires
        0 <= n <= list.len(),
    ensures
        on_first_lines(list, None, n) == list.take(n),
    decreases n,
{
    if n > 0 {
        lemma_first_lines_all(list, n - 1);
        assert(list.take(n - 1).push(list[n - 1]) =~= list.take(n));
    } else {
        assert(list.take(0) =~= Seq::<Row>::empty());
    }
}

/// The first `max` rows.
pub open spec fn capped(list: Seq<Row>, max: Option<u64>) -> Seq<Row> {
    match max {
        Some(m) => if m < list.len() {
            list.take(m as int)
        } else {
            list
        },
        None => list,
    }
}

fn keep_capped(list: &mut Vec<MatchLine>, max: Option<u64>)
    ensures
        rows(final(list)@) == capped(rows(old(list)@), max),
{
    let ghost all = rows(list@);
    match max {
        Some(m) => {
            if m < list.len() as u64 {
                list.truncate(m as usize);
                assert(rows(list@) =~= all.take(m as int));
            }
        },
        None => {},
    }
}

/// Whether line `n` is in the window of a row.
pub open spec fn in_window(row: Row, n: nat, before: nat, after: nat) -> bool {
    row.number <= n + before && n <= row.number + after
}

/// Whether line `n` is in the window of some row.
pub open spec fn wanted(list: Seq<Row>, n: nat, before: nat, after: nat) -> bool {
    exists|i: int| 0 <= i < list.len() && #[trigger] in_window(list[i], n, before, after)
}

/// Which of the first `k` rows is of line `n`, if one is.
pub open spec fn numbered(list: Seq<Row>, n: nat, k: int) -> Option<int>
    decreases k,
{
    if k <= 0 {
        None
    } else if list[k - 1].number == n {
        Some(k - 1)
    } else {
        numbered(list, n, k - 1)
    }
}

/// The rows with `before`/`after` neighbour lines, which are marked as no
/// match. Each line comes once.
pub open spec fn with_context(data: Seq<u8>, list: Seq<Row>, before: nat, after: nat) -> Seq<Row> {
    walk(data, 0, 1, if_wanted(data, list, before, after))
}

pub open spec fn if_wanted(
    data: Seq<u8>,
    list: Seq<Row>,
    before: nat,
    after: nat,
) -> spec_fn(int, int, nat) -> Seq<Row> {
    |ls: int, le: int, n: nat|
        if wanted(list, n, before, after) {
            seq![
                match numbered(list, n, list.len() as int) {
                    Some(i) => Row {
                        number: n,
                        spans: list[i].spans,
                        text: data.subrange(ls, le),
                        is_match: true,
                        starts: list[i].starts,
                    },
                    None => Row {
                        number: n,
                        spans: Seq::empty(),
                        text: data.subrange(ls, le),
                        is_match: false,
                        starts: 0,
                    },
                },
            ]
        } else {
            Seq::empty()
        }
}

/// Line numbers strictly ascend.
pub open spec fn numbers_ascend(list: Seq<Row>) -> bool {
    forall|i: int, j: int|
        0 <= i < j < list.len() ==> (#[trigger] list[i]).number < (#[trigger] list[j]).number
}

proof fn lemma_numbered(list: Seq<Row>, n: nat, k: int, m: int)
    requires
        numbers_ascend(list),
        0 <= m <= k <= list.len(),
        forall|i: int| 0 <= i < m ==> (#[trigger] list[i]).number < n,
        forall|i: int| m <= i < list.len() ==> (#[trigger] list[i]).number >= n,
    ensures
        numbered(list, n, k) == if m < k && list[m].number == n {
            Some(m)
        } else {
            None
        },
    decreases k,
{
    if k > 0 {
        if m < k {
            if m < k - 1 {
                assert(list[m].number < list[k - 1].number);
            }
            lemma_numbered(list, n, k - 1, m);
        } else {
            assert(list[k - 1].number < n);
            lemma_numbered_none(list, n, k);
        }
    }
}

proof fn lemma_numbered_none(list: Seq<Row>, n: nat, k: int)
    requires
        0 <= k <= list.len(),
        forall|i: int| 0 <= i < k ==> (#[trigger] list[i]).number != n,
    ensures
        numbered(list, n, k) is None,
    decreases k,
{
    if k > 0 {
        lemma_numbered_none(list, n, k - 1);
    }
}

fn copy_spans(v: &Vec<(usize, usize)>) -> (r: Vec<(usize, usize)>)
    ensures
        r@ == v@,
{
    let mut r: Vec<(usize, usize)> = Vec::new();
    for i in 0..v.len()
        invariant
            r@ == v@.take(i as int),
    {
        r.push(v[i]);
        assert(v@.take(i as int).push(v@[i as int]) =~= v@.take(i as int + 1));
    }
    assert(v@.take(v@.len() as int) =~= v@);
    r
}

/// Given the matching lines, pull in `before`/`after` neighbour lines.
/// Returns lines in order, with context lines marked `is_match = false`.
/// Overlapping context windows merge naturally (one entry per line number).
fn expand_context(data: &[u8], list: &Vec<MatchLine>, before: usize, after: usize) -> (r: Vec<
    MatchLine,
>)
    requires
        numbers_ascend(rows(list@)),
        data@.len() < usize::MAX,
    ensures
        rows(r@) == with_context(data@, rows(list@), before as nat, after as nat),
{
    let ghost all = rows(list@);
    let ghost f = if_wanted(data@, all, before as nat, after as nat);
    let ghost goal = with_context(data@, all, before as nat, after as nat);
    let mut r: Vec<MatchLine> = Vec::new();
    let mut start: usize = 0;
    let mut n: u64 = 1;
    // The first row whose window does not end before line n, and the first
    // row that is not of a line before n.
    let mut w: usize = 0;
    let mut m: usize = 0;
    assert(rows(r@) =~= Seq::<Row>::empty());
    assert(rows(r@) + walk(data@, 0, 1, f) =~= goal);
    while start < data.len()
        invariant
            all == rows(list@),
            numbers_ascend(all),
            data@.len() < usize::MAX,
            f == if_wanted(data@, all, before as nat, after as nat),
            start <= data@.len() + 1,
            1 <= n <= start + 1,
            w <= all.len(),
            m <= all.len(),
            forall|i: int| 0 <= i < w ==> (#[trigger] all[i]).number + after < n,
            forall|i: int| 0 <= i < m ==> (#[trigger] all[i]).number < n,
            rows(r@) + walk(data@, start as int, n as nat, f) == goal,
        decreases data@.len() + 1 - start,
    {
        let end: usize = find_line_end(data, start);
        let ghost so_far = rows(r@);
        let ghost here = f(start as int, end as int, n as nat);
        while w < list.len() && (list[w].line_number as u128) + (after as u128) < (n as u128)
            invariant
                all == rows(list@),
                w <= all.len(),
                forall|i: int| 0 <= i < w ==> (#[trigger] all[i]).number + after < n,
            decreases all.len() - w,
        {
            assert(all[w as int].number == list@[w as int].line_number);
            w = w + 1;
        }
        while m < list.len() && list[m].line_number < n
            invariant
                all == rows(list@),
                m <= all.len(),
                forall|i: int| 0 <= i < m ==> (#[trigger] all[i]).number < n,
            decreases all.len() - m,
        {
            assert(all[m as int].number == list@[m as int].line_number);
            m = m + 1;
        }
        let near = w < list.len() && (list[w].line_number as u128) <= (n as u128) + (
        before as u128);
        proof {
            if w < all.len() {
                assert(all[w as int].number == list@[w as int].line_number);
            }
            if near {
                assert(in_window(all[w as int], n as nat, before as nat, after as nat));
            } else if wanted(all, n as nat, before as nat, after as nat) {
                let i = choose|i: int|
                    0 <= i < all.len() && #[trigger] in_window(
                        all[i],
                        n as nat,
                        before as nat,
                        after as nat,
                    );
                if i > w {
                    assert(all[w as int].number < all[i].number);
                } else if i < w {
                    assert(all[i].number + after < n);
                }
            }
            assert(near == wanted(all, n as nat, before as nat, after as nat));
            if m < all.len() {
                assert(all[m as int].number == list@[m as int].line_number);
                assert forall|i: int| m <= i < all.len() implies (#[trigger] all[i]).number
                    >= n by {
                    if i > m {
                        assert(all[m as int].number < all[i].number);
                    }
                }
            }
            lemma_numbered(all, n as nat, all.len() as int, m as int);
        }
        if near {
            let matched = m < list.len() && list[m].line_number == n;
            let line = if matched {
                MatchLine {
                    line_number: n,
                    spans: copy_spans(&list[m].spans),
                    line: part_of(data, start, end),
                    is_match: true,
                    starts: list[m].starts,
                }
            } else {
                MatchLine {
                    line_number: n,
                    spans: Vec::new(),
                    line: part_of(data, start, end),
                    is_match: false,
                    starts: 0,
                }
            };
            assert(!matched ==> line@.spans =~= Seq::<(usize, usize)>::empty());
            assert(here == seq![line@]);
            r.push(line);
            assert(rows(r@) =~= so_far + here);
        } else {
            assert(rows(r@) =~= so_far + here);
        }
        assert(so_far + (here + walk(data@, end + 1, (n + 1) as nat, f)) =~= rows(r@) + walk(
            data@,
            end + 1,
            (n + 1) as nat,
            f,
        ));
        start = end + 1;
        n = n + 1;
    }
    assert(rows(r@) + Seq::<Row>::empty() =~= rows(r@));
    r
}

/// Whether `f` gives at most one row for a line, with the line's number.
pub open spec fn one_each(f: spec_fn(int, int, nat) -> Seq<Row>) -> bool {
    forall|ls: int, le: int, n: nat|
        (#[trigger] f(ls, le, n)).len() <= 1 && (f(ls, le, n).len() == 1 ==> f(ls, le, n)[0].number
            == n)
}

pub proof fn lemma_walk_ascends(
    data: Seq<u8>,
    start: int,
    n: nat,
    f: spec_fn(int, int, nat) -> Seq<Row>,
)
    requires
        one_each(f),
    ensures
        numbers_ascend(walk(data, start, n, f)),
        forall|i: int|
            0 <= i < walk(data, start, n, f).len() ==> (#[trigger] walk(
                data,
                start,
                n,
                f,
            )[i]).number >= n,
    decreases data.len() + 1 - start,
{
    if 0 <= start < data.len() {
        lemma_line_end(data, start);
        let end = line_end(data, start);
        let here = f(start, end, n);
        lemma_walk_ascends(data, end + 1, n + 1, f);
        let rest = walk(data, end + 1, n + 1, f);
        let all = here + rest;
        assert(walk(data, start, n, f) == all);
        assert forall|i: int| 0 <= i < all.len() implies (#[trigger] all[i]).number >= n by {
            if i >= here.len() {
                assert(all[i] == rest[i - here.len()]);
            }
        }
        assert forall|i: int, j: int| 0 <= i < j < all.len() implies (#[trigger] all[i]).number < (
        #[trigger] all[j]).number by {
            assert(all[j] == rest[j - here.len()]);
            if i >= here.len() {
                assert(all[i] == rest[i - here.len()]);
            }
        }
    }
}

/// The text of line `n`, counted from the line that begins at `start` as
/// line `from`; there may be none.
pub open spec fn line_text(data: Seq<u8>, start: int, from: nat, n: nat) -> Option<Seq<u8>>
    decreases data.len() + 1 - start,
{
    if start < 0 || start >= data.len() || n < from {
        None
    } else {
        proof {
            lemma_line_end(data, start);
        }
        let end = line_end(data, start);
        if n == from {
            Some(data.subrange(start, end))
        } else {
            line_text(data, end + 1, from + 1, n)
        }
    }
}

/// Whether `f` gives rows with the text of their line.
pub open spec fn true_text(data: Seq<u8>, f: spec_fn(int, int, nat) -> Seq<Row>) -> bool {
    forall|ls: int, le: int, n: nat|
        (#[trigger] f(ls, le, n)).len() == 1 ==> f(ls, le, n)[0].text == data.subrange(ls, le)
}

proof fn lemma_walk_true(
    data: Seq<u8>,
    start: int,
    n: nat,
    f: spec_fn(int, int, nat) -> Seq<Row>,
)
    requires
        one_each(f),
        true_text(data, f),
    ensures
        forall|i: int|
            0 <= i < walk(data, start, n, f).len() ==> line_text(
                data,
                start,
                n,
                (#[trigger] walk(data, start, n, f)[i]).number,
            ) == Some(walk(data, start, n, f)[i].text),
    decreases data.len() + 1 - start,
{
    if 0 <= start < data.len() {
        lemma_line_end(data, start);
        let end = line_end(data, start);
        let here = f(start, end, n);
        lemma_walk_true(data, end + 1, n + 1, f);
        lemma_walk_ascends(data, end + 1, n + 1, f);
        let rest = walk(data, end + 1, n + 1, f);
        let all = here + rest;
        assert(walk(data, start, n, f) == all);
        assert forall|i: int| 0 <= i < all.len() implies line_text(
            data,
            start,
            n,
            (#[trigger] all[i]).number,
        ) == Some(all[i].text) by {
            if i >= here.len() {
                assert(all[i] == rest[i - here.len()]);
                assert(rest[i - here.len()].number >= n + 1);
            }
        }
    }
}

/// How a text is scanned.
#[derive(Debug, Clone, Copy, PartialEq, Eq, Structural)]
pub struct ScanMode {
    /// Whether there is a match is all that matters.
    pub matches_only: bool,
    /// Matches may span lines.
    pub multiline: bool,
    /// Lines without a match.
    pub invert: bool,
    /// Each match on its own instead of the whole line.
    pub only_matching: bool,
    pub max_count: Option<u64>,
    pub before: usize,
    pub after: usize,
}

/// The row that says only that there is a match.
pub open spec fn mere_match() -> Row {
    Row {
        number: 0,
        spans: Seq::empty(),
        text: Seq::empty(),
        is_match: true,
        starts: 0,
    }
}

/// The lines that the mode asks for, before context.
pub open spec fn chosen_lines(data: Seq<u8>, spans: Seq<(usize, usize)>, mode: ScanMode) -> Seq<
    Row,
> {
    capped(
        if mode.invert {
            untouched(data, spans)
        } else {
            touched(data, spans)
        },
        mode.max_count,
    )
}

/// What a scan reports of a text with the given matches.
pub open spec fn scanned(data: Seq<u8>, spans: Seq<(usize, usize)>, mode: ScanMode) -> Seq<Row> {
    if mode.matches_only {
        let lines = if mode.invert {
            untouched(data, spans)
        } else {
            touched(data, spans)
        };
        if lines.len() > 0 {
            seq![mere_match()]
        } else {
            Seq::empty()
        }
    } else if mode.only_matching && !mode.invert {
        let texts = match_texts(data, spans, spans.len() as int);
        on_first_lines(texts, mode.max_count, texts.len() as int)
    } else {
        let lines = chosen_lines(data, spans, mode);
        if (mode.before == 0 && mode.after == 0) || lines.len() == 0 {
            lines
        } else {
            with_context(data, lines, mode.before as nat, mode.after as nat)
        }
    }
}

pub proof fn lemma_chosen_ascend(data: Seq<u8>, spans: Seq<(usize, usize)>, mode: ScanMode)
    ensures
        numbers_ascend(chosen_lines(data, spans, mode)),
{
    lemma_walk_ascends(data, 0, 1, if_touched(data, spans));
    lemma_walk_ascends(data, 0, 1, if_untouched(data, spans));
}

/// The line numbers of a scan ascend; each line is reported once.
pub proof fn law_scan_numbers_ascend(data: Seq<u8>, spans: Seq<(usize, usize)>, mode: ScanMode)
    requires
        !mode.only_matching || mode.invert,
    ensures
        numbers_ascend(scanned(data, spans, mode)),
{
    lemma_chosen_ascend(data, spans, mode);
    let lines = chosen_lines(data, spans, mode);
    lemma_walk_ascends(
        data,
        0,
        1,
        if_wanted(data, lines, mode.before as nat, mode.after as nat),
    );
}

/// A scan never reports a line that is not there: what it reports under a
/// line's number is that line's text.
pub proof fn law_scan_reports_real_lines(
    data: Seq<u8>,
    spans: Seq<(usize, usize)>,
    mode: ScanMode,
    i: int,
)
    requires
        !mode.only_matching || mode.invert,
        !mode.matches_only,
        0 <= i < scanned(data, spans, mode).len(),
    ensures
        line_text(data, 0, 1, scanned(data, spans, mode)[i].number) == Some(
            scanned(data, spans, mode)[i].text,
        ),
{
    let lines = chosen_lines(data, spans, mode);
    let (f, g) = (if_touched(data, spans), if_untouched(data, spans));
    let h = if_wanted(data, lines, mode.before as nat, mode.after as nat);
    lemma_walk_true(data, 0, 1, f);
    lemma_walk_true(data, 0, 1, g);
    lemma_walk_true(data, 0, 1, h);
    if (mode.before == 0 && mode.after == 0) || lines.len() == 0 {
        let all = if mode.invert {
            untouched(data, spans)
        } else {
            touched(data, spans)
        };
        assert(lines[i] == all[i]);
    }
}

/// A scan without -v reports nothing unless there is a match.
pub proof fn law_scan_needs_a_match(data: Seq<u8>, spans: Seq<(usize, usize)>, mode: ScanMode)
    requires
        !mode.invert,
        spans.len() == 0,
    ensures
        scanned(data, spans, mode).len() == 0,
{
    lemma_walk_nothing(data, 0, 1, if_touched(data, spans));
}

/// Scan a text with the given matches.
pub fn scan_spans(data: &[u8], spans: &Vec<(usize, usize)>, mode: ScanMode) -> (r: Vec<MatchLine>)
    requires
        ordered(spans@, data@.len()),
        data@.len() < usize::MAX,
    ensures
        rows(r@) == scanned(data@, spans@, mode),
{
    let mut lines: Vec<MatchLine> = Vec::new();
    if mode.matches_only {
        // Existence is all the caller needs.
        let any = if mode.invert {
            untouched_lines(data, spans).len() > 0
        } else {
            any_touched(data, spans)
        };
        if any {
            lines.push(
                MatchLine {
                    line_number: 0,
                    spans: Vec::new(),
                    line: Vec::new(),
                    is_match: true,
                    starts: 0,
                },
            );
            assert(lines@[0]@.spans =~= Seq::<(usize, usize)>::empty());
            assert(lines@[0]@.text =~= Seq::<u8>::empty());
            assert(rows(lines@) =~= seq![mere_match()]);
        } else {
            assert(rows(lines@) =~= Seq::<Row>::empty());
        }
        return lines;
    }
    if mode.only_matching && !mode.invert {
        let mut texts = matched_texts(data, spans);
        keep_first_lines(&mut texts, mode.max_count);
        return texts;
    }
    lines = if mode.invert {
        untouched_lines(data, spans)
    } else {
        touched_lines(data, spans)
    };
    keep_capped(&mut lines, mode.max_count);
    if (mode.before == 0 && mode.after == 0) || lines.len() == 0 {
        return lines;
    }
    proof {
        lemma_chosen_ascend(data@, spans@, mode);
    }
    expand_context(data, &lines, mode.before, mode.after)
}

} // verus!
