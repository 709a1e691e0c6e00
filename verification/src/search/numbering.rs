//! How the lines of a text are numbered.

use crate::search::lines::{lemma_line_end, line_end, line_text};
use vstd::prelude::*;

verus! {

proof fn lemma_end_at(data: Seq<u8>, from: int, at: int)
    requires
        0 <= from <= at <= data.len(),
        at < data.len() ==> data[at] == 10,
        forall|k: int| from <= k < at ==> data[k] != 10,
    ensures
        line_end(data, from) == at,
    decreases at - from,
{
    if from < at {
        lemma_end_at(data, from + 1, at);
    }
}

proof fn lemma_end_moves(data: Seq<u8>, by: int, from: int)
    requires
        0 <= by <= data.len(),
        0 <= from <= data.len() - by,
    ensures
        line_end(data, by + from) == by + line_end(data.skip(by), from),
    decreases data.len() - by - from,
{
    if from < data.len() - by {
        assert(data.skip(by)[from] == data[by + from]);
        if data[by + from] != 10 {
            lemma_end_moves(data, by, from + 1);
        }
    }
}

proof fn lemma_text_moves(data: Seq<u8>, by: int, start: int, from: nat, n: nat)
    requires
        0 <= by <= data.len(),
        0 <= start,
    ensures
        line_text(data, by + start, from + 1, n + 1) == line_text(data.skip(by), start, from, n),
    decreases data.len() - by + 1 - start,
{
    let rest = data.skip(by);
    if start < rest.len() && n >= from {
        lemma_line_end(rest, start);
        lemma_end_moves(data, by, start);
        let end = line_end(rest, start);
        assert(rest.subrange(start, end) =~= data.subrange(by + start, by + end));
        if n > from {
            lemma_text_moves(data, by, end + 1, from + 1, n);
        }
    }
}

/// Lines are counted from one, and end at newlines: the first is what stands
/// in front of the first newline, and the ones behind it are numbered on.
/// Behind a final newline there is no line.
pub proof fn law_newlines_end_lines(line: Seq<u8>, rest: Seq<u8>, n: nat)
    requires
        forall|k: int| 0 <= k < line.len() ==> line[k] != 10,
        n > 0,
    ensures
        line_text(line + seq![10u8] + rest, 0, 1, 1) == Some(line),
        line_text(line + seq![10u8] + rest, 0, 1, n + 1) == line_text(rest, 0, 1, n),
        line.len() > 0 ==> line_text(line, 0, 1, 1) == Some(line),
        line_text(line, 0, 1, n + 1) is None,
        line_text(line, 0, 1, 0) is None,
        line_text(Seq::<u8>::empty(), 0, 1, n) is None,
{
    let data = line + seq![10u8] + rest;
    let at = line.len() as int;
    lemma_end_at(data, 0, at);
    assert(data.subrange(0, at) =~= line);
    assert(data.skip(at + 1) =~= rest);
    lemma_text_moves(data, at + 1, 0, 1, n);
    lemma_end_at(line, 0, at);
    assert(line.subrange(0, at) =~= line);
    reveal_with_fuel(line_text, 2);
}

} // verus!
