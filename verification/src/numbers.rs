//! Numbers as text.

use crate::text::string_of;
use crate::trigram::{hex_char, hex_digit};
use vstd::prelude::*;

verus! {

/// The decimal digit of `d`.
pub open spec fn digit(d: int) -> char {
    (48 + d) as char
}

/// `n` in decimal.
pub open spec fn decimal(n: nat) -> Seq<char>
    decreases n,
{
    if n < 10 {
        seq![digit(n as int)]
    } else {
        decimal(n / 10).push(digit((n % 10) as int))
    }
}

pub open spec fn is_digit(c: char) -> bool {
    '0' <= c <= '9'
}

/// The number that decimal digits stand for.
pub open spec fn digits_value(s: Seq<char>) -> nat
    decreases s.len(),
{
    if s.len() == 0 {
        0
    } else {
        digits_value(s.drop_last()) * 10 + (s.last() as int - 48) as nat
    }
}

pub open spec fn all_digits(s: Seq<char>) -> bool {
    s.len() > 0 && forall|i: int| 0 <= i < s.len() ==> is_digit(#[trigger] s[i])
}

/// The digits of a number: a plus sign in front is left out.
pub open spec fn unsigned(s: Seq<char>) -> Seq<char> {
    if s.len() > 0 && s[0] == '+' {
        s.drop_first()
    } else {
        s
    }
}

/// The number that a text stands for, if it is one of at most `max`.
pub open spec fn number_in(s: Seq<char>, max: nat) -> Option<nat> {
    if all_digits(unsigned(s)) && digits_value(unsigned(s)) <= max {
        Some(digits_value(unsigned(s)))
    } else {
        None
    }
}

fn digit_char(d: u64) -> (c: char)
    requires
        d < 10,
    ensures
        c == digit(d as int),
{
    (48 + d as u8) as char
}

/// Appends `n` in decimal.
pub fn push_decimal(out: &mut Vec<char>, n: u64)
    ensures
        final(out)@ == old(out)@ + decimal(n as nat),
    decreases n,
{
    let ghost before = out@;
    if n < 10 {
        out.push(digit_char(n));
        assert(out@ =~= before + decimal(n as nat));
    } else {
        push_decimal(out, n / 10);
        out.push(digit_char(n % 10));
        assert(out@ =~= before + decimal(n as nat));
    }
}

/// `n` in decimal.
pub fn to_decimal(n: u64) -> (s: String)
    ensures
        s@ == decimal(n as nat),
{
    let mut out: Vec<char> = Vec::new();
    push_decimal(&mut out, n);
    assert(out@ =~= decimal(n as nat));
    string_of(&out)
}

proof fn lemma_value_grows(s: Seq<char>, i: int)
    requires
        0 <= i <= s.len(),
        forall|k: int| 0 <= k < s.len() ==> is_digit(#[trigger] s[k]),
    ensures
        digits_value(s.take(i)) <= digits_value(s),
    decreases s.len() - i,
{
    if i < s.len() {
        lemma_value_grows(s, i + 1);
        assert(s.take(i + 1).drop_last() =~= s.take(i));
        assert(s.take(i + 1).last() == s[i]);
    } else {
        assert(s.take(i) =~= s);
    }
}

/// The number that a text stands for, if it fits.
pub fn parse_u64(s: &Vec<char>) -> (r: Option<u64>)
    ensures
        match r {
            Some(n) => number_in(s@, u64::MAX as nat) == Some(n as nat),
            None => number_in(s@, u64::MAX as nat) is None,
        },
{
    let mut start: usize = 0;
    if s.len() > 0 && s[0] == '+' {
        start = 1;
    }
    let ghost body = unsigned(s@);
    assert(body =~= s@.skip(start as int));
    if start >= s.len() {
        return None;
    }
    let mut n: u64 = 0;
    assert(body.take(0) =~= Seq::<char>::empty());
    for i in start..s.len()
        invariant
            start <= i <= s@.len(),
            start <= 1,
            body == unsigned(s@),
            body == s@.skip(start as int),
            body.len() > 0,
            forall|k: int| 0 <= k < i - start ==> is_digit(#[trigger] body[k]),
            n == digits_value(body.take(i - start)),
    {
        let c: char = s[i];
        assert(body[i - start] == c);
        if c < '0' || '9' < c {
            assert(!all_digits(body));
            return None;
        }
        let d: u64 = (crate::text::code_of(c) - 48) as u64;
        proof {
            assert(body.take(i - start + 1).drop_last() =~= body.take(i - start));
            assert(body.take(i - start + 1).last() == c);
            assert(digits_value(body.take(i - start + 1)) == n * 10 + d);
            if all_digits(body) {
                lemma_value_grows(body, i - start + 1);
            }
        }
        match n.checked_mul(10) {
            None => {
                return None;
            },
            Some(m) => match m.checked_add(d) {
                None => {
                    return None;
                },
                Some(m) => {
                    n = m;
                },
            },
        }
    }
    assert(body.take(s@.len() - start) =~= body);
    Some(n)
}

/// A number that was written in decimal reads back.
pub proof fn law_decimal_reads_back(n: nat)
    ensures
        all_digits(decimal(n)),
        digits_value(decimal(n)) == n,
        forall|max: nat| n <= max ==> #[trigger] number_in(decimal(n), max) == Some(n),
    decreases n,
{
    if n < 10 {
        let s = decimal(n);
        assert(s.drop_last() =~= Seq::<char>::empty());
        assert(digits_value(s) == digits_value(s.drop_last()) * 10 + n);
        assert(s[0] != '+');
    } else {
        law_decimal_reads_back(n / 10);
        let s = decimal(n);
        let front = decimal(n / 10);
        assert(s.drop_last() =~= front);
        assert forall|i: int| 0 <= i < s.len() implies is_digit(#[trigger] s[i]) by {
            if i < front.len() {
                assert(s[i] == front[i]);
            }
        }
        assert(s[0] == front[0] && is_digit(front[0]));
        assert(s[0] != '+');
    }
}

/// The lowest `n` hexadecimal digits of a number, highest first.
pub open spec fn hex(x: nat, n: nat) -> Seq<char>
    decreases n,
{
    if n == 0 {
        Seq::empty()
    } else {
        hex(x / 16, (n - 1) as nat).push(hex_digit((x % 16) as int))
    }
}

/// Appends the lowest `n` hexadecimal digits of a number.
pub fn push_hex(out: &mut Vec<char>, x: u64, n: u32)
    ensures
        final(out)@ == old(out)@ + hex(x as nat, n as nat),
    decreases n,
{
    let ghost before = out@;
    if n == 0 {
        assert(out@ =~= before + hex(x as nat, 0));
    } else {
        push_hex(out, x / 16, n - 1);
        out.push(hex_char((x % 16) as u8));
        assert(out@ =~= before + hex(x as nat, n as nat));
    }
}

/// The digits from `i` on, with a comma before each group of three.
pub open spec fn grouped(s: Seq<char>, i: int) -> Seq<char>
    decreases s.len() - i,
{
    if i < 0 || i >= s.len() {
        Seq::empty()
    } else if i > 0 && (s.len() - i) % 3 == 0 {
        seq![',', s[i]] + grouped(s, i + 1)
    } else {
        seq![s[i]] + grouped(s, i + 1)
    }
}

/// A count with its digits in groups of three.
pub open spec fn readable(n: nat) -> Seq<char> {
    grouped(decimal(n), 0)
}

/// A count with its digits in groups of three.
pub fn human_count(n: usize) -> (r: String)
    ensures
        r@ == readable(n as nat),
{
    let mut digits: Vec<char> = Vec::new();
    push_decimal(&mut digits, n as u64);
    let ghost s = decimal(n as nat);
    assert(digits@ =~= s);
    let mut out: Vec<char> = Vec::new();
    for i in 0..digits.len()
        invariant
            digits@ == s,
            out@ + grouped(s, i as int) == grouped(s, 0),
    {
        let ghost before = out@;
        if i > 0 && (digits.len() - i) % 3 == 0 {
            out.push(',');
        }
        out.push(digits[i]);
        assert(out@ + grouped(s, i as int + 1) =~= before + grouped(s, i as int));
    }
    assert(out@ =~= grouped(s, 0));
    string_of(&out)
}

/// A text without its commas.
pub open spec fn without_commas(s: Seq<char>) -> Seq<char>
    decreases s.len(),
{
    if s.len() == 0 {
        Seq::empty()
    } else if s[0] == ',' {
        without_commas(s.skip(1))
    } else {
        seq![s[0]] + without_commas(s.skip(1))
    }
}

proof fn lemma_grouped(s: Seq<char>, i: int)
    requires
        0 <= i <= s.len(),
        all_digits(s),
    ensures
        without_commas(grouped(s, i)) == s.skip(i),
        i > 0 ==> grouped(s, i).len() == (s.len() - i) + (s.len() - i) / 3,
        forall|k: int|
            0 <= k < grouped(s, i).len() ==> ((#[trigger] grouped(s, i)[k]) == ',' <==> (grouped(
                s,
                i,
            ).len() - k) % 4 == 0),
    decreases s.len() - i,
{
    let g = grouped(s, i);
    if i == s.len() {
        assert(s.skip(i) =~= Seq::<char>::empty());
    } else {
        lemma_grouped(s, i + 1);
        let rest = grouped(s, i + 1);
        let m = s.len() - i;
        assert(is_digit(s[i]));
        assert(s.skip(i) =~= seq![s[i]] + s.skip(i + 1));
        assert(rest.len() == (m - 1) + (m - 1) / 3);
        if i > 0 && m % 3 == 0 {
            assert(g =~= seq![','] + (seq![s[i]] + rest));
            assert(g.skip(1) =~= seq![s[i]] + rest);
            assert(g.skip(1).skip(1) =~= rest);
            assert(g.len() == rest.len() + 2);
            assert(forall|k: int| 2 <= k < g.len() ==> (#[trigger] g[k]) == rest[k - 2]);
            reveal_with_fuel(without_commas, 3);
        } else {
            assert(g.skip(1) =~= rest);
            assert(g.len() == rest.len() + 1);
            assert(forall|k: int| 1 <= k < g.len() ==> (#[trigger] g[k]) == rest[k - 1]);
        }
    }
}

/// A count in groups is the number in decimal, with a comma wherever a
/// multiple of three digits follows and nowhere else.
pub proof fn law_groups_are_of_three_digits(n: nat)
    ensures
        without_commas(readable(n)) == decimal(n),
        forall|k: int|
            0 <= k < readable(n).len() ==> ((#[trigger] readable(n)[k]) == ',' <==> (readable(
                n,
            ).len() - k) % 4 == 0),
{
    law_decimal_reads_back(n);
    lemma_grouped(decimal(n), 0);
    assert(decimal(n).skip(0) =~= decimal(n));
}

} // verus!
