//! What the output of a search says of its results.

use crate::bytes::flat;
use crate::cli::output::{
    divider, file_text, highlighted, json_char, json_chars, json_line, json_lines, json_span,
    json_spans, json_text, marked, plain_line, plain_lines, printed, printed_total,
    starts_in, Printer,
};
use crate::numbers::{decimal, hex};
use crate::search::lines::{rows, MatchLine, Row};
use crate::search::select::{match_count, FileResult};
use crate::text::lossy_text;
use crate::trigram::hex_digit;
use vstd::prelude::*;
use vstd::utf8::encode_utf8;

verus! {

/// The rows that are matches, in order.
pub open spec fn matched(list: Seq<Row>) -> Seq<Row> {
    list.filter(|r: Row| r.is_match)
}

proof fn lemma_flat_push(parts: Seq<Seq<u8>>, x: Seq<u8>)
    ensures
        flat(parts.push(x)) == flat(parts) + x,
{
    assert(parts.push(x).drop_last() =~= parts);
}

proof fn lemma_matched_step(list: Seq<Row>, n: int)
    requires
        0 < n <= list.len(),
    ensures
        matched(list.take(n)) == if list[n - 1].is_match {
            matched(list.take(n - 1)).push(list[n - 1])
        } else {
            matched(list.take(n - 1))
        },
{
    reveal(Seq::filter);
    assert(list.take(n).drop_last() =~= list.take(n - 1));
}

proof fn lemma_json_lines(path: Seq<char>, list: Seq<Row>, n: int)
    requires
        0 <= n <= list.len(),
    ensures
        json_lines(path, list, n) == flat(
            Seq::new(
                matched(list.take(n)).len(),
                |k: int| json_line(path, matched(list.take(n))[k]),
            ),
        ),
    decreases n,
{
    let now = matched(list.take(n));
    let parts = Seq::new(now.len(), |k: int| json_line(path, now[k]));
    if n > 0 {
        lemma_json_lines(path, list, n - 1);
        lemma_matched_step(list, n);
        let before = matched(list.take(n - 1));
        let front = Seq::new(before.len(), |k: int| json_line(path, before[k]));
        if list[n - 1].is_match {
            assert(parts =~= front.push(json_line(path, list[n - 1])));
            lemma_flat_push(front, json_line(path, list[n - 1]));
        } else {
            assert(parts =~= front);
        }
    } else {
        reveal(Seq::filter);
        assert(parts =~= Seq::<Seq<u8>>::empty());
    }
}

proof fn lemma_match_count(lines: Seq<MatchLine>, n: int)
    requires
        0 <= n <= lines.len(),
    ensures
        match_count(lines.take(n)) == matched(rows(lines).take(n)).len(),
    decreases n,
{
    if n > 0 {
        lemma_match_count(lines, n - 1);
        lemma_matched_step(rows(lines), n);
        assert(lines.take(n).drop_last() =~= lines.take(n - 1));
    } else {
        reveal(Seq::filter);
        assert(lines.take(0) =~= Seq::<MatchLine>::empty());
    }
}

/// The number of lines that a match is on is the number of rows that are
/// matches.
pub proof fn law_match_count_counts_matches(lines: Seq<MatchLine>)
    ensures
        match_count(lines) == matched(rows(lines)).len(),
{
    lemma_match_count(lines, lines.len() as int);
    assert(lines.take(lines.len() as int) =~= lines);
    assert(rows(lines).take(lines.len() as int) =~= rows(lines));
}

/// --json: one object for each matched line of a file, in order, and none for
/// a line of context.
pub proof fn law_json_has_an_object_for_each_match(p: Printer, fr: FileResult, first: bool)
    requires
        p.json && !p.files_only && !p.counts,
    ensures
        ({
            let list = matched(rows(fr.lines@));
            &&& file_text(p, fr, first) == flat(
                Seq::new(list.len(), |k: int| json_line(fr.rel_path@, list[k])),
            )
            &&& list.len() == match_count(fr.lines@)
        }),
{
    let all = rows(fr.lines@);
    lemma_json_lines(fr.rel_path@, all, all.len() as int);
    assert(all.take(all.len() as int) =~= all);
    law_match_count_counts_matches(fr.lines@);
}

/// A span as it stands in JSON: where it begins and where it ends.
pub open spec fn span_text(span: (usize, usize)) -> Seq<u8> {
    encode_utf8("["@) + encode_utf8(decimal(span.0 as nat)) + encode_utf8(","@) + encode_utf8(
        decimal(span.1 as nat),
    ) + encode_utf8("]"@)
}

/// The object of a line has the path, the line's number and its text, and
/// each of its spans, with commas between them.
pub proof fn law_json_object_says_everything(path: Seq<char>, row: Row)
    ensures
        json_line(path, row) == encode_utf8("{\"path\":"@) + encode_utf8(json_text(path))
            + encode_utf8(",\"line\":"@) + encode_utf8(decimal(row.number)) + encode_utf8(
            ",\"text\":"@,
        ) + encode_utf8(json_text(lossy_text(row.text))) + encode_utf8(",\"spans\":["@) + flat(
            Seq::new(
                row.spans.len(),
                |k: int|
                    if k == 0 {
                        span_text(row.spans[k])
                    } else {
                        encode_utf8(","@) + span_text(row.spans[k])
                    },
            ),
        ) + encode_utf8("]}\n"@),
{
    lemma_spans(row.spans, row.spans.len() as int);
}

proof fn lemma_spans(spans: Seq<(usize, usize)>, n: int)
    requires
        0 <= n <= spans.len(),
    ensures
        json_spans(spans, n) == flat(
            Seq::new(
                n as nat,
                |k: int|
                    if k == 0 {
                        span_text(spans[k])
                    } else {
                        encode_utf8(","@) + span_text(spans[k])
                    },
            ),
        ),
    decreases n,
{
    let f = |k: int|
        if k == 0 {
            span_text(spans[k])
        } else {
            encode_utf8(","@) + span_text(spans[k])
        };
    if n > 0 {
        lemma_spans(spans, n - 1);
        let front = Seq::new((n - 1) as nat, f);
        assert(Seq::new(n as nat, f) =~= front.push(f(n - 1)));
        lemma_flat_push(front, f(n - 1));
        assert(json_span(spans[n - 1]) == span_text(spans[n - 1]));
        assert(Seq::<u8>::empty() + span_text(spans[n - 1]) =~= span_text(spans[n - 1]));
    } else {
        assert(Seq::new(0, f) =~= Seq::<Seq<u8>>::empty());
    }
}

/// The value of a hexadecimal digit.
pub open spec fn digit_value(c: char) -> int {
    if '0' <= c <= '9' {
        c as int - 48
    } else if 'a' <= c <= 'f' {
        c as int - 87
    } else {
        -1
    }
}

/// What the inside of a JSON string stands for, if it is well formed: no quote
/// and no control character but behind a backslash.
pub open spec fn json_meaning(t: Seq<char>) -> Option<Seq<char>>
    decreases t.len(),
{
    if t.len() == 0 {
        Some(Seq::empty())
    } else if t[0] == '\\' {
        if t.len() < 2 {
            None
        } else if t[1] == 'u' {
            if t.len() < 6 {
                None
            } else {
                let code = 4096 * digit_value(t[2]) + 256 * digit_value(t[3]) + 16 * digit_value(
                    t[4],
                ) + digit_value(t[5]);
                match json_meaning(t.skip(6)) {
                    Some(rest) => Some(seq![code as char] + rest),
                    None => None,
                }
            }
        } else {
            match json_meaning(t.skip(2)) {
                Some(rest) => Some(
                    seq![
                        if t[1] == 'n' {
                            '\n'
                        } else if t[1] == 'r' {
                            '\r'
                        } else if t[1] == 't' {
                            '\t'
                        } else {
                            t[1]
                        },
                    ] + rest,
                ),
                None => None,
            }
        }
    } else if t[0] == '"' || (t[0] as int) < 0x20 {
        None
    } else {
        match json_meaning(t.skip(1)) {
            Some(rest) => Some(seq![t[0]] + rest),
            None => None,
        }
    }
}

proof fn lemma_hex_digit(d: int)
    requires
        0 <= d < 16,
    ensures
        digit_value(hex_digit(d)) == d,
{
}

proof fn lemma_json_char(c: char, rest: Seq<char>)
    ensures
        json_meaning(json_char(c) + rest) == match json_meaning(rest) {
            Some(m) => Some(seq![c] + m),
            None => None,
        },
{
    let t = json_char(c) + rest;
    let code = c as nat;
    if c == '"' || c == '\\' || c == '\n' || c == '\r' || c == '\t' {
        assert(t.skip(2) =~= rest);
    } else if code < 0x20 {
        let h = hex(code, 4);
        reveal_with_fuel(hex, 5);
        assert(code / 16 / 16 == 0 && code / 16 / 16 / 16 == 0);
        lemma_hex_digit(0);
        lemma_hex_digit((code / 16) as int);
        lemma_hex_digit((code % 16) as int);
        assert(h.len() == 4);
        assert(h[3] == hex_digit((code % 16) as int));
        assert(h[2] == hex_digit((code / 16 % 16) as int));
        assert(h[1] == hex_digit(0) && h[0] == hex_digit(0));
        assert(t[2] == h[0] && t[3] == h[1] && t[4] == h[2] && t[5] == h[3]);
        assert(t.skip(6) =~= rest);
        assert(16 * (code / 16) + code % 16 == code);
    } else {
        assert(t.skip(1) =~= rest);
    }
}

proof fn lemma_json_chars(s: Seq<char>, n: int, rest: Seq<char>)
    requires
        0 <= n <= s.len(),
    ensures
        json_meaning(json_chars(s, n) + rest) == match json_meaning(rest) {
            Some(m) => Some(s.take(n) + m),
            None => None,
        },
    decreases n,
{
    if n > 0 {
        let more = json_char(s[n - 1]) + rest;
        assert(json_chars(s, n) + rest =~= json_chars(s, n - 1) + more);
        lemma_json_chars(s, n - 1, more);
        lemma_json_char(s[n - 1], rest);
        if let Some(m) = json_meaning(rest) {
            assert(s.take(n - 1) + (seq![s[n - 1]] + m) =~= s.take(n) + m);
        }
    } else {
        assert(json_chars(s, n) + rest =~= rest);
        if let Some(m) = json_meaning(rest) {
            assert(s.take(0) + m =~= m);
        }
    }
}

/// A JSON string stands for the text that it was made from: quotes around it,
/// and inside what reads as the text.
pub proof fn law_json_text_reads_back(s: Seq<char>)
    ensures
        json_text(s).len() >= 2,
        json_text(s).first() == '"' && json_text(s).last() == '"',
        json_meaning(json_text(s).subrange(1, json_text(s).len() - 1)) == Some(s),
{
    let inner = json_chars(s, s.len() as int);
    assert(json_text(s).subrange(1, json_text(s).len() - 1) =~= inner);
    lemma_json_chars(s, s.len() as int, Seq::empty());
    assert(inner + Seq::<char>::empty() =~= inner);
    assert(s.take(s.len() as int) + Seq::<char>::empty() =~= s);
}

/// -l: a file's path on a line of its own, whatever is on its lines.
pub proof fn law_files_only_prints_the_path(p: Printer, fr: FileResult, first: bool)
    requires
        p.files_only,
    ensures
        file_text(p, fr, first) == encode_utf8(fr.rel_path@) + encode_utf8("\n"@),
{
}

/// The sum of the matches that begin on the first `n` rows.
pub open spec fn sum_of_starts(list: Seq<Row>, n: int) -> nat
    decreases n,
{
    if n <= 0 {
        0
    } else {
        sum_of_starts(list, n - 1) + list[n - 1].starts
    }
}

proof fn lemma_starts(lines: Seq<MatchLine>, n: int)
    requires
        0 <= n <= lines.len(),
    ensures
        starts_in(lines, n) == sum_of_starts(rows(lines), n),
    decreases n,
{
    if n > 0 {
        lemma_starts(lines, n - 1);
    }
}

/// -c: a file's path and the number of its matched lines, or of the matches
/// that begin on its lines.
pub proof fn law_counts_print_the_number(p: Printer, fr: FileResult, first: bool)
    requires
        p.counts && !p.files_only,
    ensures
        ({
            let list = rows(fr.lines@);
            let n = if p.count_matches {
                sum_of_starts(list, list.len() as int)
            } else {
                matched(list).len()
            };
            file_text(p, fr, first) == encode_utf8(fr.rel_path@) + encode_utf8(":"@) + encode_utf8(
                decimal(n),
            ) + encode_utf8("\n"@)
        }),
{
    law_match_count_counts_matches(fr.lines@);
    lemma_starts(fr.lines@, fr.lines@.len() as int);
}

/// A line's text without the carriage return of a CRLF.
pub open spec fn shown_text(row: Row) -> Seq<u8> {
    if row.text.len() > 0 && row.text[row.text.len() - 1] == 13 {
        row.text.subrange(0, row.text.len() - 1)
    } else {
        row.text
    }
}

/// What stands behind a line's path and number: a colon for a match, a dash
/// for context.
pub open spec fn sign(row: Row) -> Seq<u8> {
    if row.is_match {
        encode_utf8(":"@)
    } else {
        encode_utf8("-"@)
    }
}

/// A text in a color: between the color's code and the code for none.
pub open spec fn tinted(p: Printer, code: Seq<char>, text: Seq<char>) -> Seq<u8> {
    if p.color {
        encode_utf8(code) + encode_utf8(text) + encode_utf8("\x1b[0m"@)
    } else {
        encode_utf8(text)
    }
}

/// A line of plain output: the divider where lines are left out between it and
/// the one before, the path unless there are headings, the number, and the
/// text.
pub open spec fn shown_line(p: Printer, path: Seq<char>, list: Seq<Row>, i: int) -> Seq<u8> {
    (if p.context && i > 0 && list[i].number > list[i - 1].number + 1 {
        encode_utf8("--\n"@)
    } else {
        Seq::empty()
    }) + (if p.heading {
        Seq::empty()
    } else {
        tinted(p, "\x1b[35m"@, path) + sign(list[i])
    }) + (tinted(p, "\x1b[32m"@, decimal(list[i].number)) + sign(list[i])) + highlighted(
        shown_text(list[i]),
        list[i].spans,
        p.color,
    ) + encode_utf8("\n"@)
}

/// What stands in front of a file's lines.
pub open spec fn shown_head(p: Printer, path: Seq<char>, first: bool) -> Seq<u8> {
    if p.heading && first {
        tinted(p, "\x1b[35m"@, path) + encode_utf8("\n"@)
    } else if p.heading {
        encode_utf8("\n"@) + tinted(p, "\x1b[35m"@, path) + encode_utf8("\n"@)
    } else if p.context && !first {
        encode_utf8("--\n"@)
    } else {
        Seq::empty()
    }
}

/// Plain output: every line of a file, in order, under its path and number.
pub proof fn law_plain_prints_every_line(p: Printer, fr: FileResult, first: bool)
    requires
        !p.files_only && !p.counts && !p.json,
    ensures
        ({
            let list = rows(fr.lines@);
            file_text(p, fr, first) == shown_head(p, fr.rel_path@, first) + flat(
                Seq::new(list.len(), |i: int| shown_line(p, fr.rel_path@, list, i)),
            )
        }),
{
    let list = rows(fr.lines@);
    lemma_plain_lines(p, fr.rel_path@, list, list.len() as int);
    let path = tinted(p, "\x1b[35m"@, fr.rel_path@);
    assert(Seq::<u8>::empty() + path =~= path);
}

proof fn lemma_plain_line(p: Printer, path: Seq<char>, list: Seq<Row>, i: int)
    requires
        0 <= i < list.len(),
    ensures
        plain_line(p, path, list, i) == shown_line(p, path, list, i),
{
    let row = list[i];
    let front = divider(p, list, i);
    let place = tinted(p, "\x1b[35m"@, path) + sign(row);
    let number = tinted(p, "\x1b[32m"@, decimal(row.number)) + sign(row);
    if p.heading {
        assert(front + Seq::<u8>::empty() =~= front);
    } else {
        assert(front + (place + number) =~= front + place + number);
    }
}

proof fn lemma_plain_lines(p: Printer, path: Seq<char>, list: Seq<Row>, n: int)
    requires
        0 <= n <= list.len(),
    ensures
        plain_lines(p, path, list, n) == flat(
            Seq::new(n as nat, |i: int| shown_line(p, path, list, i)),
        ),
    decreases n,
{
    let f = |i: int| shown_line(p, path, list, i);
    if n > 0 {
        lemma_plain_lines(p, path, list, n - 1);
        lemma_plain_line(p, path, list, n - 1);
        let front = Seq::new((n - 1) as nat, f);
        assert(Seq::new(n as nat, f) =~= front.push(f(n - 1)));
        lemma_flat_push(front, f(n - 1));
    } else {
        assert(Seq::new(0, f) =~= Seq::<Seq<u8>>::empty());
    }
}

/// The output is that of each file, in order; the count is the sum of the
/// files' counts.
pub proof fn law_output_is_that_of_each_file(p: Printer, results: Seq<FileResult>)
    ensures
        printed(p, results, results.len() as int) == flat(
            Seq::new(results.len(), |i: int| file_text(p, results[i], i == 0)),
        ),
{
    lemma_printed(p, results, results.len() as int);
}

proof fn lemma_printed(p: Printer, results: Seq<FileResult>, n: int)
    requires
        0 <= n <= results.len(),
    ensures
        printed(p, results, n) == flat(
            Seq::new(n as nat, |i: int| file_text(p, results[i], i == 0)),
        ),
    decreases n,
{
    let f = |i: int| file_text(p, results[i], i == 0);
    if n > 0 {
        lemma_printed(p, results, n - 1);
        let front = Seq::new((n - 1) as nat, f);
        assert(Seq::new(n as nat, f) =~= front.push(f(n - 1)));
        lemma_flat_push(front, f(n - 1));
    } else {
        assert(Seq::new(0, f) =~= Seq::<Seq<u8>>::empty());
    }
}

/// What is counted grows with each file: by 1 for a path, by what -c prints of
/// it, or by its matched lines.
pub proof fn law_count_is_the_sum(p: Printer, results: Seq<FileResult>, n: int)
    requires
        0 <= n < results.len(),
    ensures
        printed_total(p, results, 0) == 0,
        ({
            let list = rows(results[n].lines@);
            printed_total(p, results, n + 1) == printed_total(p, results, n) + if p.files_only {
                1
            } else if p.counts && p.count_matches {
                sum_of_starts(list, list.len() as int)
            } else {
                matched(list).len()
            }
        }),
{
    law_match_count_counts_matches(results[n].lines@);
    lemma_starts(results[n].lines@, results[n].lines@.len() as int);
}

/// Spans in order, within a text.
pub open spec fn in_order(spans: Seq<(usize, usize)>, len: nat) -> bool {
    &&& forall|i: int|
        0 <= i < spans.len() ==> (#[trigger] spans[i]).0 <= spans[i].1 && spans[i].1 <= len
    &&& forall|i: int, j: int|
        0 <= i < j < spans.len() ==> (#[trigger] spans[i]).1 <= (#[trigger] spans[j]).0
}

proof fn lemma_marked_last(text: Seq<u8>, spans: Seq<(usize, usize)>, i: int, pos: int)
    requires
        in_order(spans, text.len()),
        0 <= i < spans.len(),
        0 <= pos <= spans[i].0,
    ensures
        ({
            let (s, e) = spans.last();
            marked(text, spans, i, pos) == marked(
                text.take(s as int),
                spans.drop_last(),
                i,
                pos,
            ) + encode_utf8("\x1b[30;43m"@) + text.subrange(s as int, e as int) + encode_utf8(
                "\x1b[0m"@,
            ) + text.skip(e as int)
        }),
    decreases spans.len() - i,
{
    let n = spans.len() - 1;
    let (s, e) = spans.last();
    let (front, less) = (text.take(s as int), spans.drop_last());
    let (on, off) = (encode_utf8("\x1b[30;43m"@), encode_utf8("\x1b[0m"@));
    assert(spans[n].0 <= spans[n].1);
    if i == n {
        assert(marked(text, spans, i + 1, e as int) == text.skip(e as int));
        assert(marked(front, less, i, pos) == front.skip(pos));
        assert(front.skip(pos) =~= text.subrange(pos, s as int));
        assert(marked(text, spans, i, pos) =~= text.subrange(pos, s as int) + on + text.subrange(
            s as int,
            e as int,
        ) + off + text.skip(e as int));
    } else {
        let (a, b) = spans[i];
        assert(spans[i].1 <= spans[i + 1].0);
        assert(spans[i].1 <= spans[n].0);
        assert(spans[i].0 <= spans[i].1);
        lemma_marked_last(text, spans, i + 1, b as int);
        assert(less[i] == spans[i]);
        assert(front.subrange(pos, a as int) =~= text.subrange(pos, a as int));
        assert(front.subrange(a as int, b as int) =~= text.subrange(a as int, b as int));
        let x = text.subrange(pos, a as int) + on + text.subrange(a as int, b as int) + off;
        let y = marked(front, less, i + 1, b as int);
        let z = on + text.subrange(s as int, e as int) + off + text.skip(e as int);
        assert(marked(text, spans, i, pos) =~= x + (y + z));
        assert(marked(front, less, i, pos) =~= x + y);
        assert(x + (y + z) =~= x + y + on + text.subrange(s as int, e as int) + off + text.skip(
            e as int,
        ));
    }
}

/// With color, each span of a line stands between the codes for black on
/// yellow and back, and the rest of the text as it is; without, all of it as
/// it is.
pub proof fn law_color_marks_each_span(text: Seq<u8>, spans: Seq<(usize, usize)>)
    requires
        in_order(spans, text.len()),
    ensures
        highlighted(text, spans, false) == text,
        spans.len() == 0 ==> highlighted(text, spans, true) == text,
        spans.len() > 0 ==> ({
            let (s, e) = spans.last();
            highlighted(text, spans, true) == highlighted(
                text.take(s as int),
                spans.drop_last(),
                true,
            ) + encode_utf8("\x1b[30;43m"@) + text.subrange(s as int, e as int) + encode_utf8(
                "\x1b[0m"@,
            ) + text.skip(e as int)
        }),
{
    if spans.len() > 0 {
        lemma_marked_last(text, spans, 0, 0);
    } else {
        assert(text.skip(0) =~= text);
    }
}

} // verus!
