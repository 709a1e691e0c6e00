//! Characters, strings and numbers as text.

use vstd::prelude::*;
use vstd::utf8::{decode_utf8, encode_utf8, encode_utf8_decode_utf8, valid_utf8};

verus! {

/// `String::push` appends the character to the end of the string.
pub assume_specification[ String::push ](s: &mut String, c: char)
    ensures
        final(s)@ == old(s)@.push(c),
;

/// Whether `n` is the code of a character: no surrogate.
pub open spec fn is_code(n: int) -> bool {
    0 <= n < 0xd800 || 0xe000 <= n <= 0x10ffff
}

/// The code of a character.
pub fn code_of(c: char) -> (n: u32)
    ensures
        n == c as int,
        is_code(c as int),
{
    proof {
        vstd::utf8::char_is_scalar(c);
    }
    c as u32
}

/// `char::from_u32` gives the character with the code, if there is one.
pub assume_specification[ char::from_u32 ](i: u32) -> (r: Option<char>)
    ensures
        r == if is_code(i as int) {
            Some(i as char)
        } else {
            None
        },
;

/// The error of `std::str::from_utf8`.
#[verifier::external_type_specification]
#[verifier::external_body]
pub struct ExUtf8Error(std::str::Utf8Error);

/// `std::str::from_utf8` gives the bytes as a string, exactly when they are
/// valid UTF-8.
pub assume_specification<'a>[ std::str::from_utf8 ](v: &'a [u8]) -> (r: Result<
    &'a str,
    std::str::Utf8Error,
>)
    ensures
        match r {
            Ok(s) => valid_utf8(v@) && encode_utf8(s@) == v@,
            Err(_) => !valid_utf8(v@),
        },
;

/// The bytes as text, if they are valid UTF-8.
pub fn utf8_text<'a>(v: &'a [u8]) -> (r: Option<&'a str>)
    ensures
        match r {
            Some(s) => valid_utf8(v@) && s@ == decode_utf8(v@),
            None => !valid_utf8(v@),
        },
{
    match std::str::from_utf8(v) {
        Ok(s) => {
            proof {
                encode_utf8_decode_utf8(s@);
            }
            Some(s)
        },
        Err(_) => None,
    }
}

/// Bytes as text, with replacement characters where they are not valid UTF-8.
pub uninterp spec fn lossy_text(v: Seq<u8>) -> Seq<char>;

/// `String::from_utf8_lossy` gives bytes as text; valid UTF-8 as it is.
#[verifier::external_body]
pub(crate) fn lossy(v: &[u8]) -> (s: String)
    ensures
        s@ == lossy_text(v@),
        valid_utf8(v@) ==> s@ == decode_utf8(v@),
{
    String::from_utf8_lossy(v).into_owned()
}

/// The string of the given characters.
pub fn string_of(chars: &Vec<char>) -> (s: String)
    ensures
        s@ == chars@,
{
    let mut s = String::new();
    for i in 0..chars.len()
        invariant
            s@ == chars@.take(i as int),
    {
        s.push(chars[i]);
        assert(chars@.take(i as int).push(chars@[i as int]) =~= chars@.take(i as int + 1));
    }
    assert(chars@.take(chars@.len() as int) =~= chars@);
    s
}

/// Appends the characters of `s` to `out`.
pub fn push_str(out: &mut Vec<char>, s: &str)
    ensures
        final(out)@ == old(out)@ + s@,
{
    let ghost start = out@;
    for c in it: s.chars()
        invariant
            it.seq() == s@,
            out@ == start + s@.take(it.index() as int),
    {
        assert(s@.take(it.index() as int).push(c) =~= s@.take(it.index() as int + 1));
        out.push(c);
    }
    assert(s@.take(s@.len() as int) =~= s@);
}

/// The characters of `s`.
pub fn chars_of(s: &str) -> (out: Vec<char>)
    ensures
        out@ == s@,
{
    let mut out: Vec<char> = Vec::new();
    push_str(&mut out, s);
    out
}

/// Appends `items` to `out`.
pub fn push_chars(out: &mut Vec<char>, items: &Vec<char>)
    ensures
        final(out)@ == old(out)@ + items@,
{
    let ghost start = out@;
    for i in 0..items.len()
        invariant
            out@ == start + items@.take(i as int),
    {
        out.push(items[i]);
        assert(items@.take(i as int).push(items@[i as int]) =~= items@.take(i as int + 1));
    }
    assert(items@.take(items@.len() as int) =~= items@);
}

/// Whether two texts are the same.
pub fn same_text(a: &str, b: &str) -> (r: bool)
    ensures
        r == (a@ == b@),
{
    let x = a.as_bytes();
    let y = b.as_bytes();
    proof {
        encode_utf8_decode_utf8(a@);
        encode_utf8_decode_utf8(b@);
    }
    if x.len() != y.len() {
        return false;
    }
    for i in 0..x.len()
        invariant
            x@ == encode_utf8(a@),
            y@ == encode_utf8(b@),
            x@.len() == y@.len(),
            forall|k: int| 0 <= k < i ==> x@[k] == y@[k],
    {
        if x[i] != y[i] {
            return false;
        }
    }
    assert(x@ =~= y@);
    true
}

/// Whether `s` begins with `p`.
pub open spec fn begins(s: Seq<char>, p: Seq<char>) -> bool {
    p.len() <= s.len() && s.take(p.len() as int) == p
}

/// Whether `s` ends with `p`.
pub open spec fn ends(s: Seq<char>, p: Seq<char>) -> bool {
    p.len() <= s.len() && s.skip(s.len() - p.len()) == p
}

pub fn starts_with(s: &Vec<char>, p: &Vec<char>) -> (r: bool)
    ensures
        r == begins(s@, p@),
{
    if p.len() > s.len() {
        return false;
    }
    for i in 0..p.len()
        invariant
            p@.len() <= s@.len(),
            forall|k: int| 0 <= k < i ==> s@[k] == p@[k],
    {
        if s[i] != p[i] {
            assert(s@.take(p@.len() as int)[i as int] != p@[i as int]);
            return false;
        }
    }
    assert(s@.take(p@.len() as int) =~= p@);
    true
}

pub fn ends_with(s: &Vec<char>, p: &Vec<char>) -> (r: bool)
    ensures
        r == ends(s@, p@),
{
    if p.len() > s.len() {
        return false;
    }
    let total: usize = s.len();
    let at: usize = total - p.len();
    for i in 0..p.len()
        invariant
            total == s@.len(),
            at + p@.len() == total,
            forall|k: int| 0 <= k < i ==> s@[at + k] == p@[k],
    {
        if s[at + i] != p[i] {
            assert(s@.skip(at as int)[i as int] != p@[i as int]);
            return false;
        }
    }
    assert(s@.skip(at as int) =~= p@);
    true
}

/// The characters of `s` from `from` to `to`.
pub fn slice_of(s: &Vec<char>, from: usize, to: usize) -> (r: Vec<char>)
    requires
        from <= to <= s@.len(),
    ensures
        r@ == s@.subrange(from as int, to as int),
{
    let mut r: Vec<char> = Vec::new();
    for i in from..to
        invariant
            from <= i <= to <= s@.len(),
            r@ == s@.subrange(from as int, i as int),
    {
        r.push(s[i]);
        assert(s@.subrange(from as int, i as int).push(s@[i as int]) =~= s@.subrange(
            from as int,
            i as int + 1,
        ));
    }
    r
}

/// Whether a character is white space.
pub uninterp spec fn is_space(c: char) -> bool;

/// `char::is_whitespace` tells whether a character is white space: in ASCII
/// the space and the characters from tab to carriage return.
pub assume_specification[ char::is_whitespace ](c: char) -> (r: bool)
    ensures
        r == is_space(c),
        c <= '\x7f' ==> r == (c == ' ' || '\t' <= c <= '\r'),
;

/// A text without the white space in front.
pub open spec fn trimmed_front(s: Seq<char>) -> Seq<char>
    decreases s.len(),
{
    if s.len() > 0 && is_space(s[0]) {
        trimmed_front(s.drop_first())
    } else {
        s
    }
}

/// A text without the white space behind.
pub open spec fn trimmed_back(s: Seq<char>) -> Seq<char>
    decreases s.len(),
{
    if s.len() > 0 && is_space(s.last()) {
        trimmed_back(s.drop_last())
    } else {
        s
    }
}

/// A text without the white space around it.
pub open spec fn trimmed(s: Seq<char>) -> Seq<char> {
    trimmed_back(trimmed_front(s))
}

fn front_end(s: &Vec<char>) -> (lo: usize)
    ensures
        lo <= s@.len(),
        s@.skip(lo as int) == trimmed_front(s@),
        s@.len() > 0 && '0' <= s@[0] <= '9' ==> lo == 0,
{
    let mut lo: usize = 0;
    assert(s@.skip(0) =~= s@);
    while lo < s.len()
        invariant
            lo <= s@.len(),
            trimmed_front(s@.skip(lo as int)) == trimmed_front(s@),
            s@.len() > 0 && '0' <= s@[0] <= '9' ==> lo == 0,
        decreases s@.len() - lo,
    {
        let ghost rest = s@.skip(lo as int);
        assert(rest[0] == s@[lo as int]);
        if !s[lo].is_whitespace() {
            return lo;
        }
        assert(rest.drop_first() =~= s@.skip(lo as int + 1));
        lo = lo + 1;
    }
    assert(s@.skip(lo as int) =~= Seq::<char>::empty());
    lo
}

fn back_start(s: &Vec<char>, lo: usize) -> (hi: usize)
    requires
        lo <= s@.len(),
    ensures
        lo <= hi <= s@.len(),
        s@.subrange(lo as int, hi as int) == trimmed_back(s@.skip(lo as int)),
        lo < s@.len() && '0' <= s@.last() <= '9' ==> hi == s@.len(),
{
    let mut hi: usize = s.len();
    assert(s@.subrange(lo as int, hi as int) =~= s@.skip(lo as int));
    while lo < hi
        invariant
            lo <= hi <= s@.len(),
            trimmed_back(s@.subrange(lo as int, hi as int)) == trimmed_back(s@.skip(lo as int)),
            lo < s@.len() && '0' <= s@.last() <= '9' ==> hi == s@.len(),
        decreases hi,
    {
        let ghost rest = s@.subrange(lo as int, hi as int);
        assert(rest.last() == s@[hi - 1]);
        if !s[hi - 1].is_whitespace() {
            return hi;
        }
        assert(rest.drop_last() =~= s@.subrange(lo as int, hi - 1));
        hi = hi - 1;
    }
    assert(s@.subrange(lo as int, hi as int) =~= Seq::<char>::empty());
    hi
}

/// A text without the white space around it.
pub fn trim(s: &Vec<char>) -> (r: Vec<char>)
    ensures
        r@ == trimmed(s@),
        s@.len() > 0 && '0' <= s@[0] <= '9' && '0' <= s@.last() <= '9' ==> r@ == s@,
{
    let lo: usize = front_end(s);
    let hi: usize = back_start(s, lo);
    assert(s@.subrange(0, s@.len() as int) =~= s@);
    slice_of(s, lo, hi)
}

/// Where the first `c` from `from` on is, or the length.
pub open spec fn find_from(s: Seq<char>, c: char, from: int) -> int
    decreases s.len() - from,
{
    if from < 0 || from >= s.len() {
        s.len() as int
    } else if s[from] == c {
        from
    } else {
        find_from(s, c, from + 1)
    }
}

/// The first `c` from `from` on is where none is before it.
pub proof fn lemma_find(s: Seq<char>, c: char, from: int, at: int)
    requires
        0 <= from <= at < s.len(),
        s[at] == c,
        forall|i: int| from <= i < at ==> s[i] != c,
    ensures
        find_from(s, c, from) == at,
    decreases at - from,
{
    if from < at {
        lemma_find(s, c, from + 1, at);
    }
}

pub fn find_char(s: &Vec<char>, c: char, from: usize) -> (r: usize)
    requires
        from <= s@.len(),
    ensures
        r == find_from(s@, c, from as int),
        from <= r <= s@.len(),
{
    let mut i: usize = from;
    while i < s.len() && s[i] != c
        invariant
            from <= i <= s@.len(),
            find_from(s@, c, from as int) == find_from(s@, c, i as int),
        ensures
            from <= i <= s@.len(),
            find_from(s@, c, from as int) == find_from(s@, c, i as int),
            i < s@.len() ==> s@[i as int] == c,
        decreases s@.len() - i,
    {
        i = i + 1;
    }
    i
}

/// A text with `/` in place of `\`.
pub open spec fn forward(s: Seq<char>) -> Seq<char> {
    Seq::new(
        s.len(),
        |i: int|
            if s[i] == '\\' {
                '/'
            } else {
                s[i]
            },
    )
}

/// A text with `/` in place of `\`.
pub fn forward_slashes(s: &str) -> (r: String)
    ensures
        r@ == forward(s@),
{
    let mut out = chars_of(s);
    let n: usize = out.len();
    for i in 0..n
        invariant
            n == s@.len(),
            out@.len() == s@.len(),
            forall|k: int| 0 <= k < i ==> out@[k] == forward(s@)[k],
            forall|k: int| i <= k < s@.len() ==> out@[k] == s@[k],
    {
        if out[i] == '\\' {
            out.set(i, '/');
        }
    }
    assert(out@ =~= forward(s@));
    string_of(&out)
}

/// The texts of strings.
pub open spec fn texts(v: Seq<String>) -> Seq<Seq<char>> {
    Seq::new(v.len(), |i: int| v[i]@)
}

/// Trimming takes white space off both ends, all of it and nothing else.
pub proof fn law_trimmed_is_the_middle(s: Seq<char>)
    ensures
        ({
            let t = trimmed(s);
            &&& t.len() > 0 ==> !is_space(t[0]) && !is_space(t.last())
            &&& exists|i: int, j: int|
                0 <= i <= j <= s.len() && t == #[trigger] s.subrange(i, j) && (forall|k: int|
                    0 <= k < i || j <= k < s.len() ==> is_space(#[trigger] s[k]))
        }),
{
    let i = lemma_front(s);
    let rest = s.skip(i);
    let n = lemma_back(rest);
    assert(trimmed(s) == rest.take(n));
    assert(rest.take(n) =~= s.subrange(i, i + n));
    assert forall|k: int| 0 <= k < i || i + n <= k < s.len() implies is_space(#[trigger] s[k]) by {
        if k >= i {
            assert(rest[k - i] == s[k]);
        }
    }
    if n > 0 {
        assert(rest[0] == s[i]);
    }
}

proof fn lemma_front(s: Seq<char>) -> (i: int)
    ensures
        0 <= i <= s.len(),
        trimmed_front(s) == s.skip(i),
        i < s.len() ==> !is_space(s[i]),
        forall|k: int| 0 <= k < i ==> is_space(#[trigger] s[k]),
    decreases s.len(),
{
    if s.len() > 0 && is_space(s[0]) {
        let rest = s.drop_first();
        let i = lemma_front(rest);
        assert(rest.skip(i) =~= s.skip(i + 1));
        assert forall|k: int| 0 <= k < i + 1 implies is_space(#[trigger] s[k]) by {
            if k > 0 {
                assert(rest[k - 1] == s[k]);
            }
        }
        i + 1
    } else {
        assert(s.skip(0) =~= s);
        0
    }
}

proof fn lemma_back(s: Seq<char>) -> (n: int)
    ensures
        0 <= n <= s.len(),
        trimmed_back(s) == s.take(n),
        n > 0 ==> !is_space(s[n - 1]),
        forall|k: int| n <= k < s.len() ==> is_space(#[trigger] s[k]),
    decreases s.len(),
{
    if s.len() > 0 && is_space(s.last()) {
        let rest = s.drop_last();
        let n = lemma_back(rest);
        assert(rest.take(n) =~= s.take(n));
        assert forall|k: int| n <= k < s.len() implies is_space(#[trigger] s[k]) by {
            if k < s.len() - 1 {
                assert(rest[k] == s[k]);
            }
        }
        n
    } else {
        assert(s.take(s.len() as int) =~= s);
        s.len() as int
    }
}

} // verus!
