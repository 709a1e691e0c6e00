//! What a search prints.

use crate::bytes::push_bytes;
use crate::numbers::{decimal, hex, push_hex, to_decimal};
use crate::search::lines::{rows, MatchLine, Row};
use crate::search::select::{match_count, FileResult};
use crate::text::{chars_of, code_of, lossy, lossy_text, string_of};
use vstd::prelude::*;
use vstd::slice::slice_subrange;
use vstd::utf8::encode_utf8;

verus! {

fn push_text(out: &mut Vec<u8>, s: &str)
    ensures
        final(out)@ == old(out)@ + encode_utf8(s@),
{
    push_bytes(out, s.as_bytes());
}

fn push_number(out: &mut Vec<u8>, n: u64)
    ensures
        final(out)@ == old(out)@ + encode_utf8(decimal(n as nat)),
{
    let s = to_decimal(n);
    push_text(out, s.as_str());
}

/// A character in a JSON string.
pub open spec fn json_char(c: char) -> Seq<char> {
    if c == '"' {
        seq!['\\', '"']
    } else if c == '\\' {
        seq!['\\', '\\']
    } else if c == '\n' {
        seq!['\\', 'n']
    } else if c == '\r' {
        seq!['\\', 'r']
    } else if c == '\t' {
        seq!['\\', 't']
    } else if (c as int) < 0x20 {
        seq!['\\', 'u'] + hex(c as nat, 4)
    } else {
        seq![c]
    }
}

/// The first `n` characters in a JSON string.
pub open spec fn json_chars(s: Seq<char>, n: int) -> Seq<char>
    decreases n,
{
    if n <= 0 {
        Seq::empty()
    } else {
        json_chars(s, n - 1) + json_char(s[n - 1])
    }
}

/// A text as a JSON string.
pub open spec fn json_text(s: Seq<char>) -> Seq<char> {
    seq!['"'] + json_chars(s, s.len() as int) + seq!['"']
}

fn push_json_char(out: &mut Vec<char>, c: char)
    ensures
        final(out)@ == old(out)@ + json_char(c),
{
    let ghost before = out@;
    if c == '"' {
        out.push('\\');
        out.push('"');
    } else if c == '\\' {
        out.push('\\');
        out.push('\\');
    } else if c == '\n' {
        out.push('\\');
        out.push('n');
    } else if c == '\r' {
        out.push('\\');
        out.push('r');
    } else if c == '\t' {
        out.push('\\');
        out.push('t');
    } else if code_of(c) < 0x20 {
        out.push('\\');
        out.push('u');
        push_hex(out, code_of(c) as u64, 4);
    } else {
        out.push(c);
    }
    assert(out@ =~= before + json_char(c));
}

pub fn json_str(s: &str) -> (r: String)
    ensures
        r@ == json_text(s@),
{
    let chars = chars_of(s);
    let mut out: Vec<char> = Vec::new();
    out.push('"');
    for i in 0..chars.len()
        invariant
            chars@ == s@,
            out@ == seq!['"'] + json_chars(s@, i as int),
    {
        push_json_char(&mut out, chars[i]);
        assert(out@ =~= seq!['"'] + json_chars(s@, i as int + 1));
    }
    out.push('"');
    assert(out@ =~= json_text(s@));
    string_of(&out)
}

pub open spec fn least(a: int, b: int) -> int {
    if a < b {
        a
    } else {
        b
    }
}

/// The text from `pos` on, with the matches from `i` on marked in
/// highlighter-pen style: black on yellow. One that begins before `pos` is
/// passed over.
pub open spec fn marked(text: Seq<u8>, spans: Seq<(usize, usize)>, i: int, pos: int) -> Seq<u8>
    decreases spans.len() - i,
{
    if i < 0 || i >= spans.len() {
        text.skip(pos)
    } else {
        let s = least(spans[i].0 as int, text.len() as int);
        let e = least(spans[i].1 as int, text.len() as int);
        if s < pos {
            marked(text, spans, i + 1, pos)
        } else {
            text.subrange(pos, s) + encode_utf8("\x1b[30;43m"@) + text.subrange(s, e) + encode_utf8(
                "\x1b[0m"@,
            ) + marked(text, spans, i + 1, e)
        }
    }
}

/// A line's text, its matches marked if there is color.
pub open spec fn highlighted(text: Seq<u8>, spans: Seq<(usize, usize)>, color: bool) -> Seq<u8> {
    if color {
        marked(text, spans, 0, 0)
    } else {
        text
    }
}

/// Whether every match ends where it begins or later.
pub open spec fn spans_run(spans: Seq<(usize, usize)>) -> bool {
    forall|i: int| 0 <= i < spans.len() ==> (#[trigger] spans[i]).0 <= spans[i].1
}

/// Appends a line's text, its matches marked if there is color.
pub fn write_highlighted(
    out: &mut Vec<u8>,
    text: &[u8],
    spans: &Vec<(usize, usize)>,
    color: bool,
)
    requires
        spans_run(spans@),
    ensures
        final(out)@ == old(out)@ + highlighted(text@, spans@, color),
{
    let ghost before = out@;
    if !color {
        push_bytes(out, text);
        return;
    }
    let len: usize = text.len();
    let mut pos: usize = 0;
    for i in 0..spans.len()
        invariant
            spans_run(spans@),
            len == text@.len(),
            pos <= len,
            out@ + marked(text@, spans@, i as int, pos as int) == before + marked(
                text@,
                spans@,
                0,
                0,
            ),
    {
        let ghost now = out@;
        let s: usize = if spans[i].0 < len {
            spans[i].0
        } else {
            len
        };
        let e: usize = if spans[i].1 < len {
            spans[i].1
        } else {
            len
        };
        assert(spans@[i as int].0 <= spans@[i as int].1);
        if s >= pos {
            push_bytes(out, slice_subrange(text, pos, s));
            push_text(out, "\x1b[30;43m");
            push_bytes(out, slice_subrange(text, s, e));
            push_text(out, "\x1b[0m");
            assert(out@ + marked(text@, spans@, i as int + 1, e as int) =~= now + marked(
                text@,
                spans@,
                i as int,
                pos as int,
            ));
            pos = e;
        }
    }
    push_bytes(out, slice_subrange(text, pos, len));
    assert(text@.subrange(pos as int, len as int) =~= text@.skip(pos as int));
}

/// How results are printed.
#[derive(Debug, Clone, Copy)]
pub struct Printer {
    pub color: bool,
    pub heading: bool,
    pub json: bool,
    pub files_only: bool,
    pub counts: bool,
    /// Context (-A/-B/-C) is active; groups get "--" dividers like grep.
    pub context: bool,
    /// -U/-o: -c counts matches, not matched lines.
    pub count_matches: bool,
}

pub open spec fn newline() -> Seq<u8> {
    encode_utf8("\n"@)
}

/// The number of matches that begin on the first `n` lines.
pub open spec fn starts_in(lines: Seq<MatchLine>, n: int) -> nat
    decreases n,
{
    if n <= 0 {
        0
    } else {
        starts_in(lines, n - 1) + lines[n - 1].starts as nat
    }
}

/// What -c counts of a file.
pub open spec fn count_in(p: Printer, fr: FileResult) -> nat {
    if p.count_matches {
        starts_in(fr.lines@, fr.lines@.len() as int)
    } else {
        match_count(fr.lines@)
    }
}

/// A span in JSON.
pub open spec fn json_span(span: (usize, usize)) -> Seq<u8> {
    encode_utf8("["@) + encode_utf8(decimal(span.0 as nat)) + encode_utf8(","@) + encode_utf8(
        decimal(span.1 as nat),
    ) + encode_utf8("]"@)
}

/// The comma before all spans but the first.
pub open spec fn comma(i: int) -> Seq<u8> {
    if i > 0 {
        encode_utf8(","@)
    } else {
        Seq::empty()
    }
}

/// The first `n` spans of a line in JSON.
pub open spec fn json_spans(spans: Seq<(usize, usize)>, n: int) -> Seq<u8>
    decreases n,
{
    if n <= 0 {
        Seq::empty()
    } else {
        json_spans(spans, n - 1) + (comma(n - 1) + json_span(spans[n - 1]))
    }
}

/// A matched line in JSON.
pub open spec fn json_line(path: Seq<char>, row: Row) -> Seq<u8> {
    encode_utf8("{\"path\":"@) + encode_utf8(json_text(path)) + encode_utf8(",\"line\":"@)
        + encode_utf8(decimal(row.number)) + encode_utf8(",\"text\":"@) + encode_utf8(
        json_text(lossy_text(row.text)),
    ) + encode_utf8(",\"spans\":["@) + json_spans(row.spans, row.spans.len() as int) + encode_utf8(
        "]}\n"@,
    )
}

/// The matched ones of the first `n` lines in JSON.
pub open spec fn json_lines(path: Seq<char>, lines: Seq<Row>, n: int) -> Seq<u8>
    decreases n,
{
    if n <= 0 {
        Seq::empty()
    } else if lines[n - 1].is_match {
        json_lines(path, lines, n - 1) + json_line(path, lines[n - 1])
    } else {
        json_lines(path, lines, n - 1)
    }
}

/// A line without the carriage return at its end.
pub open spec fn without_return(text: Seq<u8>) -> Seq<u8> {
    if text.len() > 0 && text.last() == 13 {
        text.drop_last()
    } else {
        text
    }
}

/// grep convention: ':' after the locator for a match, '-' for a context
/// line.
pub open spec fn separator(row: Row) -> Seq<u8> {
    if row.is_match {
        encode_utf8(":"@)
    } else {
        encode_utf8("-"@)
    }
}

pub open spec fn colored(code: Seq<char>, s: Seq<char>, color: bool) -> Seq<u8> {
    if color {
        encode_utf8(code) + encode_utf8(s) + encode_utf8("\x1b[0m"@)
    } else {
        encode_utf8(s)
    }
}

/// What stands before a line's text.
pub open spec fn locator(p: Printer, path: Seq<char>, row: Row) -> Seq<u8> {
    let number = colored("\x1b[32m"@, decimal(row.number), p.color) + separator(row);
    if p.heading {
        number
    } else {
        colored("\x1b[35m"@, path, p.color) + separator(row) + number
    }
}

/// With context on, a gap between line numbers means a separate group: grep's
/// "--" divider. Without context, grep prints no divider between non-adjacent
/// matches.
pub open spec fn divider(p: Printer, lines: Seq<Row>, i: int) -> Seq<u8> {
    if p.context && i > 0 && lines[i].number > lines[i - 1].number + 1 {
        encode_utf8("--\n"@)
    } else {
        Seq::empty()
    }
}

/// Line `i` of a file.
pub open spec fn plain_line(p: Printer, path: Seq<char>, lines: Seq<Row>, i: int) -> Seq<u8> {
    let row = lines[i];
    divider(p, lines, i) + locator(p, path, row) + highlighted(
        without_return(row.text),
        row.spans,
        p.color,
    ) + newline()
}

/// The first `n` lines of a file.
pub open spec fn plain_lines(p: Printer, path: Seq<char>, lines: Seq<Row>, n: int) -> Seq<u8>
    decreases n,
{
    if n <= 0 {
        Seq::empty()
    } else {
        plain_lines(p, path, lines, n - 1) + plain_line(p, path, lines, n - 1)
    }
}

/// What stands before a file's lines. In no-heading mode grep divides every
/// context group with "--", including across files. In heading mode files are
/// already separated by a blank line and a heading.
pub open spec fn file_head(p: Printer, path: Seq<char>, first: bool) -> Seq<u8> {
    if p.heading {
        (if first {
            Seq::empty()
        } else {
            newline()
        }) + colored("\x1b[35m"@, path, p.color) + newline()
    } else if p.context && !first {
        encode_utf8("--\n"@)
    } else {
        Seq::empty()
    }
}

/// What is printed of a file.
pub open spec fn file_text(p: Printer, fr: FileResult, first: bool) -> Seq<u8> {
    let path = fr.rel_path@;
    let lines = rows(fr.lines@);
    if p.files_only {
        encode_utf8(path) + newline()
    } else if p.counts {
        encode_utf8(path) + encode_utf8(":"@) + encode_utf8(decimal(count_in(p, fr))) + newline()
    } else if p.json {
        json_lines(path, lines, lines.len() as int)
    } else {
        file_head(p, path, first) + plain_lines(p, path, lines, lines.len() as int)
    }
}

/// What is printed of the first `n` files.
pub open spec fn printed(p: Printer, results: Seq<FileResult>, n: int) -> Seq<u8>
    decreases n,
{
    if n <= 0 {
        Seq::empty()
    } else {
        printed(p, results, n - 1) + file_text(p, results[n - 1], n == 1)
    }
}

/// What is counted of a file.
pub open spec fn file_total(p: Printer, fr: FileResult) -> nat {
    if p.files_only {
        1
    } else if p.counts {
        count_in(p, fr)
    } else {
        match_count(fr.lines@)
    }
}

/// What is counted of the first `n` files.
pub open spec fn printed_total(p: Printer, results: Seq<FileResult>, n: int) -> nat
    decreases n,
{
    if n <= 0 {
        0
    } else {
        printed_total(p, results, n - 1) + file_total(p, results[n - 1])
    }
}

/// Whether every match of every line ends where it begins or later.
pub open spec fn all_spans_run(results: Seq<FileResult>) -> bool {
    forall|i: int, k: int|
        0 <= i < results.len() && 0 <= k < results[i].lines@.len() ==> spans_run(
            (#[trigger] results[i].lines@[k]).spans@,
        )
}

proof fn lemma_starts_grow(lines: Seq<MatchLine>, i: int, n: int)
    requires
        0 <= i <= n,
    ensures
        starts_in(lines, i) <= starts_in(lines, n),
    decreases n - i,
{
    if i < n {
        lemma_starts_grow(lines, i, n - 1);
    }
}

proof fn lemma_totals_grow(p: Printer, results: Seq<FileResult>, i: int, n: int)
    requires
        0 <= i <= n,
    ensures
        printed_total(p, results, i) <= printed_total(p, results, n),
    decreases n - i,
{
    if i < n {
        lemma_totals_grow(p, results, i, n - 1);
    }
}

fn matched_lines(lines: &Vec<MatchLine>) -> (n: u64)
    ensures
        n == match_count(lines@),
{
    let mut n: u64 = 0;
    assert(lines@.take(0) =~= Seq::<MatchLine>::empty());
    for i in 0..lines.len()
        invariant
            n == match_count(lines@.take(i as int)),
            n <= i,
    {
        assert(lines@.take(i as int + 1).drop_last() =~= lines@.take(i as int));
        if lines[i].is_match {
            n = n + 1;
        }
    }
    assert(lines@.take(lines@.len() as int) =~= lines@);
    n
}

fn started(lines: &Vec<MatchLine>) -> (n: u64)
    requires
        starts_in(lines@, lines@.len() as int) <= u64::MAX,
    ensures
        n == starts_in(lines@, lines@.len() as int),
{
    let mut n: u64 = 0;
    for i in 0..lines.len()
        invariant
            starts_in(lines@, lines@.len() as int) <= u64::MAX,
            n == starts_in(lines@, i as int),
    {
        proof {
            lemma_starts_grow(lines@, i as int + 1, lines@.len() as int);
        }
        n = n + lines[i].starts as u64;
    }
    n
}

/// The number of matches that begin on the lines, if it fits.
fn started_if(lines: &Vec<MatchLine>) -> (r: Option<u64>)
    ensures
        match r {
            Some(n) => n == starts_in(lines@, lines@.len() as int),
            None => starts_in(lines@, lines@.len() as int) > u64::MAX,
        },
{
    let mut n: u64 = 0;
    for i in 0..lines.len()
        invariant
            n == starts_in(lines@, i as int),
    {
        proof {
            lemma_starts_grow(lines@, i as int + 1, lines@.len() as int);
        }
        let k: u64 = lines[i].starts as u64;
        if k > u64::MAX - n {
            return None;
        }
        n = n + k;
    }
    Some(n)
}

/// Whether every match on the lines ends where it begins or later.
fn lines_run(lines: &Vec<MatchLine>) -> (r: bool)
    ensures
        r == forall|k: int| 0 <= k < lines@.len() ==> spans_run((#[trigger] lines@[k]).spans@),
{
    for k in 0..lines.len()
        invariant
            forall|j: int| 0 <= j < k ==> spans_run((#[trigger] lines@[j]).spans@),
    {
        let spans = &lines[k].spans;
        for i in 0..spans.len()
            invariant
                k < lines@.len(),
                spans == lines@[k as int].spans,
                forall|j: int| 0 <= j < i ==> (#[trigger] spans@[j]).0 <= spans@[j].1,
        {
            if spans[i].0 > spans[i].1 {
                assert(!spans_run(lines@[k as int].spans@));
                return false;
            }
        }
    }
    true
}

fn push_json_span(out: &mut Vec<u8>, span: (usize, usize))
    ensures
        final(out)@ == old(out)@ + json_span(span),
{
    let ghost before = out@;
    push_text(out, "[");
    push_number(out, span.0 as u64);
    push_text(out, ",");
    push_number(out, span.1 as u64);
    push_text(out, "]");
    assert(out@ =~= before + json_span(span));
}

fn push_json_spans(out: &mut Vec<u8>, spans: &Vec<(usize, usize)>)
    ensures
        final(out)@ == old(out)@ + json_spans(spans@, spans@.len() as int),
{
    let ghost before = out@;
    for i in 0..spans.len()
        invariant
            out@ == before + json_spans(spans@, i as int),
    {
        let ghost now = out@;
        if i > 0 {
            push_text(out, ",");
        }
        assert(out@ =~= now + comma(i as int));
        push_json_span(out, spans[i]);
        assert(out@ =~= now + (comma(i as int) + json_span(spans@[i as int])));
        assert(out@ =~= before + json_spans(spans@, i as int + 1));
    }
}

fn push_json_line(out: &mut Vec<u8>, path: &str, line: &MatchLine)
    ensures
        final(out)@ == old(out)@ + json_line(path@, line@),
{
    let ghost before = out@;
    let text = lossy(line.line.as_slice());
    let path_json = json_str(path);
    let text_json = json_str(text.as_str());
    push_text(out, "{\"path\":");
    push_text(out, path_json.as_str());
    push_text(out, ",\"line\":");
    push_number(out, line.line_number);
    push_text(out, ",\"text\":");
    push_text(out, text_json.as_str());
    push_text(out, ",\"spans\":[");
    push_json_spans(out, &line.spans);
    push_text(out, "]}\n");
    assert(out@ =~= before + json_line(path@, line@));
}

fn push_json_lines(out: &mut Vec<u8>, path: &str, lines: &Vec<MatchLine>)
    ensures
        final(out)@ == old(out)@ + json_lines(path@, rows(lines@), lines@.len() as int),
{
    let ghost before = out@;
    for i in 0..lines.len()
        invariant
            out@ == before + json_lines(path@, rows(lines@), i as int),
    {
        assert(rows(lines@)[i as int] == lines@[i as int]@);
        if lines[i].is_match {
            push_json_line(out, path, &lines[i]);
            assert(out@ =~= before + json_lines(path@, rows(lines@), i as int + 1));
        }
    }
}

fn push_colored(out: &mut Vec<u8>, code: &str, s: &str, color: bool)
    ensures
        final(out)@ == old(out)@ + colored(code@, s@, color),
{
    let ghost before = out@;
    if color {
        push_text(out, code);
    }
    push_text(out, s);
    if color {
        push_text(out, "\x1b[0m");
    }
    assert(out@ =~= before + colored(code@, s@, color));
}

proof fn lemma_regrouped(a: Seq<u8>, b: Seq<u8>, c: Seq<u8>, d: Seq<u8>, e: Seq<u8>)
    ensures
        a + b + c + d + e == a + (b + c + d + e),
{
    assert(a + b + c + d + e =~= a + (b + c + d + e));
}

impl Printer {
    fn push_locator(&self, out: &mut Vec<u8>, path: &str, line: &MatchLine)
        ensures
            final(out)@ == old(out)@ + locator(*self, path@, line@),
    {
        let ghost before = out@;
        let sep = if line.is_match {
            ":"
        } else {
            "-"
        };
        let number = to_decimal(line.line_number);
        if !self.heading {
            push_colored(out, "\x1b[35m", path, self.color);
            push_text(out, sep);
        }
        push_colored(out, "\x1b[32m", number.as_str(), self.color);
        push_text(out, sep);
        assert(out@ =~= before + locator(*self, path@, line@));
    }

    fn push_divider(&self, out: &mut Vec<u8>, lines: &Vec<MatchLine>, i: usize)
        requires
            i < lines@.len(),
        ensures
            final(out)@ == old(out)@ + divider(*self, rows(lines@), i as int),
    {
        let ghost before = out@;
        let ghost all = rows(lines@);
        assert(all[i as int] == lines@[i as int]@);
        if self.context && i > 0 {
            assert(all[i - 1] == lines@[i - 1]@);
            let p: u64 = lines[i - 1].line_number;
            let n: u64 = lines[i].line_number;
            if n > p && n - p > 1 {
                push_text(out, "--\n");
            }
        }
        assert(out@ =~= before + divider(*self, all, i as int));
    }

    fn push_line(&self, out: &mut Vec<u8>, path: &str, lines: &Vec<MatchLine>, i: usize)
        requires
            i < lines@.len(),
            spans_run(lines@[i as int].spans@),
        ensures
            final(out)@ == old(out)@ + plain_line(*self, path@, rows(lines@), i as int),
    {
        let ghost before = out@;
        let line = &lines[i];
        assert(rows(lines@)[i as int] == line@);
        self.push_divider(out, lines, i);
        self.push_locator(out, path, line);
        let mut end: usize = line.line.len();
        if end > 0 && line.line[end - 1] == 13 {
            end = end - 1;
        }
        let text = slice_subrange(line.line.as_slice(), 0, end);
        assert(text@ =~= without_return(line@.text));
        write_highlighted(out, text, &line.spans, self.color);
        push_text(out, "\n");
        proof {
            lemma_regrouped(
                before,
                divider(*self, rows(lines@), i as int),
                locator(*self, path@, line@),
                highlighted(text@, line@.spans, self.color),
                newline(),
            );
        }
    }

    fn push_lines(&self, out: &mut Vec<u8>, path: &str, lines: &Vec<MatchLine>)
        requires
            forall|k: int| 0 <= k < lines@.len() ==> spans_run((#[trigger] lines@[k]).spans@),
        ensures
            final(out)@ == old(out)@ + plain_lines(
                *self,
                path@,
                rows(lines@),
                lines@.len() as int,
            ),
    {
        let ghost before = out@;
        for i in 0..lines.len()
            invariant
                forall|k: int| 0 <= k < lines@.len() ==> spans_run((#[trigger] lines@[k]).spans@),
                out@ == before + plain_lines(*self, path@, rows(lines@), i as int),
        {
            self.push_line(out, path, lines, i);
            assert(out@ =~= before + plain_lines(*self, path@, rows(lines@), i as int + 1));
        }
    }

    fn push_file(&self, out: &mut Vec<u8>, fr: &FileResult, first: bool) -> (n: u64)
        requires
            file_total(*self, *fr) <= u64::MAX,
            forall|k: int|
                0 <= k < fr.lines@.len() ==> spans_run((#[trigger] fr.lines@[k]).spans@),
        ensures
            final(out)@ == old(out)@ + file_text(*self, *fr, first),
            n == file_total(*self, *fr),
    {
        let ghost before = out@;
        let path = fr.rel_path.as_str();
        if self.files_only {
            push_text(out, path);
            push_text(out, "\n");
            assert(out@ =~= before + file_text(*self, *fr, first));
            return 1;
        }
        if self.counts {
            let n: u64 = if self.count_matches {
                started(&fr.lines)
            } else {
                matched_lines(&fr.lines)
            };
            push_text(out, path);
            push_text(out, ":");
            push_number(out, n);
            push_text(out, "\n");
            assert(out@ =~= before + file_text(*self, *fr, first));
            return n;
        }
        let n: u64 = matched_lines(&fr.lines);
        if self.json {
            push_json_lines(out, path, &fr.lines);
            return n;
        }
        if self.heading {
            if !first {
                push_text(out, "\n");
            }
            push_colored(out, "\x1b[35m", path, self.color);
            push_text(out, "\n");
        } else if self.context && !first {
            push_text(out, "--\n");
        }
        assert(out@ =~= before + file_head(*self, path@, first));
        self.push_lines(out, path, &fr.lines);
        assert(out@ =~= before + file_text(*self, *fr, first));
        n
    }

    /// Whether results can be printed: no match ends before it begins, and
    /// the count fits.
    pub fn can_print(&self, results: &Vec<FileResult>) -> (r: bool)
        ensures
            r == (all_spans_run(results@) && printed_total(
                *self,
                results@,
                results@.len() as int,
            ) <= u64::MAX),
    {
        let mut total: u64 = 0;
        for i in 0..results.len()
            invariant
                forall|j: int, k: int|
                    0 <= j < i && 0 <= k < results@[j].lines@.len() ==> spans_run(
                        (#[trigger] results@[j].lines@[k]).spans@,
                    ),
                total == printed_total(*self, results@, i as int),
        {
            let fr = &results[i];
            if !lines_run(&fr.lines) {
                return false;
            }
            proof {
                lemma_totals_grow(*self, results@, i as int + 1, results@.len() as int);
            }
            let n: u64 = if self.files_only {
                1
            } else if self.counts && self.count_matches {
                match started_if(&fr.lines) {
                    Some(n) => n,
                    None => {
                        return false;
                    },
                }
            } else {
                matched_lines(&fr.lines)
            };
            if n > u64::MAX - total {
                return false;
            }
            total = total + n;
        }
        true
    }

    /// What is printed of the results, and how much was counted.
    pub fn print(&self, results: &Vec<FileResult>) -> (r: (Vec<u8>, u64))
        requires
            all_spans_run(results@),
            printed_total(*self, results@, results@.len() as int) <= u64::MAX,
        ensures
            r.0@ == printed(*self, results@, results@.len() as int),
            r.1 == printed_total(*self, results@, results@.len() as int),
    {
        let mut out: Vec<u8> = Vec::new();
        let mut total: u64 = 0;
        for i in 0..results.len()
            invariant
                all_spans_run(results@),
                printed_total(*self, results@, results@.len() as int) <= u64::MAX,
                out@ == printed(*self, results@, i as int),
                total == printed_total(*self, results@, i as int),
        {
            proof {
                lemma_totals_grow(*self, results@, i as int + 1, results@.len() as int);
                assert forall|k: int| 0 <= k < results@[i as int].lines@.len() implies spans_run(
                    (#[trigger] results@[i as int].lines@[k]).spans@,
                ) by {}
            }
            let n: u64 = self.push_file(&mut out, &results[i], i == 0);
            total = total + n;
        }
        (out, total)
    }
}

} // verus!
