//! Helpers on strings: equality, and numbers written in decimal.

use crate::order::{lex_order, Order};
use vstd::prelude::*;
use vstd::string::*;
use vstd::utf8::{encode_utf8, encode_utf8_decode_utf8};

verus! {

/// Different strings have different UTF-8 bytes.
pub proof fn lemma_bytes_tell_apart(a: Seq<char>, b: Seq<char>)
    ensures
        encode_utf8(a) == encode_utf8(b) <==> a == b,
{
    encode_utf8_decode_utf8(a);
    encode_utf8_decode_utf8(b);
}

/// Whether `a` and `b` are the same string.
pub fn str_eq(a: &str, b: &str) -> (r: bool)
    ensures
        r == (a@ == b@),
{
    proof {
        lemma_bytes_tell_apart(a@, b@);
    }
    match lex_order(a.as_bytes(), b.as_bytes()) {
        Order::Equal => true,
        _ => false,
    }
}

/// The character of the decimal digit `d`.
pub open spec fn digit_char(d: nat) -> char {
    if d == 0 {
        '0'
    } else if d == 1 {
        '1'
    } else if d == 2 {
        '2'
    } else if d == 3 {
        '3'
    } else if d == 4 {
        '4'
    } else if d == 5 {
        '5'
    } else if d == 6 {
        '6'
    } else if d == 7 {
        '7'
    } else if d == 8 {
        '8'
    } else {
        '9'
    }
}

/// `n` written in decimal, without leading zeros.
pub open spec fn decimal_text(n: nat) -> Seq<char>
    decreases n,
{
    if n < 10 {
        seq![digit_char(n)]
    } else {
        decimal_text(n / 10).push(digit_char(n % 10))
    }
}

/// The decimal digit `d` as a string of one character.
fn digit_str(d: usize) -> (s: &'static str)
    requires
        d < 10,
    ensures
        s@ == seq![digit_char(d as nat)],
{
    proof {
        reveal_strlit("0");
        reveal_strlit("1");
        reveal_strlit("2");
        reveal_strlit("3");
        reveal_strlit("4");
        reveal_strlit("5");
        reveal_strlit("6");
        reveal_strlit("7");
        reveal_strlit("8");
        reveal_strlit("9");
    }
    let s = if d == 0 {
        "0"
    } else if d == 1 {
        "1"
    } else if d == 2 {
        "2"
    } else if d == 3 {
        "3"
    } else if d == 4 {
        "4"
    } else if d == 5 {
        "5"
    } else if d == 6 {
        "6"
    } else if d == 7 {
        "7"
    } else if d == 8 {
        "8"
    } else {
        "9"
    };
    assert(s@ =~= seq![digit_char(d as nat)]);
    s
}

/// Appends `n`, written in decimal, to `out`.
pub fn append_decimal(out: &mut String, n: usize)
    ensures
        final(out)@ == old(out)@ + decimal_text(n as nat),
    decreases n,
{
    if n >= 10 {
        append_decimal(out, n / 10);
    }
    out.append(digit_str(n % 10));
    assert(out@ =~= old(out)@ + decimal_text(n as nat));
}

/// Whether Unicode counts `c` as white space.
pub uninterp spec fn is_whitespace_char(c: char) -> bool;

/// `char::is_whitespace` of the standard library: whether Unicode counts the
/// character as white space. The contract only names the answer.
#[verifier::external_body]
pub(crate) fn char_is_whitespace(c: char) -> (r: bool)
    ensures
        r == is_whitespace_char(c),
{
    c.is_whitespace()
}

/// The characters of `s`.
pub fn to_chars(s: &str) -> (v: Vec<char>)
    ensures
        v@ == s@,
{
    let mut v: Vec<char> = Vec::new();
    for c in it: s.chars()
        invariant
            v@ == it.seq().subrange(0, it.index() as int),
            it.seq() == s@,
    {
        v.push(c);
    }
    v
}

/// The place of the first character from `pos` on that is no white space.
pub open spec fn skip_blanks(s: Seq<char>, pos: int) -> int
    decreases s.len() - pos,
{
    if 0 <= pos < s.len() && is_whitespace_char(s[pos]) {
        skip_blanks(s, pos + 1)
    } else {
        pos
    }
}

/// The place of the first character from `pos` on that is white space.
pub open spec fn skip_word(s: Seq<char>, pos: int) -> int
    decreases s.len() - pos,
{
    if 0 <= pos < s.len() && !is_whitespace_char(s[pos]) {
        skip_word(s, pos + 1)
    } else {
        pos
    }
}

/// The place of the first `c` in `s` from `pos` on, or the length of `s` if
/// there is none.
pub open spec fn find_char(s: Seq<char>, c: char, pos: int) -> int
    decreases s.len() - pos,
{
    if 0 <= pos < s.len() && s[pos] != c {
        find_char(s, c, pos + 1)
    } else {
        pos
    }
}

/// Skipping and searching move forward and stay within `s`; what `find_char`
/// passes over is not the character looked for.
pub proof fn lemma_skip_bounds(s: Seq<char>, c: char, pos: int)
    requires
        0 <= pos <= s.len(),
    ensures
        pos <= skip_blanks(s, pos) <= s.len(),
        pos <= skip_word(s, pos) <= s.len(),
        pos <= find_char(s, c, pos) <= s.len(),
        find_char(s, c, pos) < s.len() ==> s[find_char(s, c, pos)] == c,
        pos < s.len() && !is_whitespace_char(s[pos]) ==> pos < skip_word(s, pos),
    decreases s.len() - pos,
{
    if pos < s.len() {
        lemma_skip_bounds(s, c, pos + 1);
    }
}

/// The place of the first character of `s` from `pos` on that is no white
/// space.
pub fn blanks_end(s: &Vec<char>, pos: usize) -> (end: usize)
    requires
        pos <= s@.len(),
    ensures
        end == skip_blanks(s@, pos as int),
        pos <= end <= s@.len(),
{
    let mut i = pos;
    while i < s.len() && char_is_whitespace(s[i])
        invariant
            pos <= i <= s@.len(),
            skip_blanks(s@, i as int) == skip_blanks(s@, pos as int),
        decreases s@.len() - i,
    {
        i += 1;
    }
    i
}

/// The place of the first character of `s` from `pos` on that is white
/// space.
pub fn word_end(s: &Vec<char>, pos: usize) -> (end: usize)
    requires
        pos <= s@.len(),
    ensures
        end == skip_word(s@, pos as int),
        pos <= end <= s@.len(),
{
    let mut i = pos;
    while i < s.len() && !char_is_whitespace(s[i])
        invariant
            pos <= i <= s@.len(),
            skip_word(s@, i as int) == skip_word(s@, pos as int),
        decreases s@.len() - i,
    {
        i += 1;
    }
    i
}

/// The place of the first `c` in `s` from `pos` on, within the first `limit`
/// characters, or `limit` if there is none.
pub fn find_in(s: &Vec<char>, c: char, pos: usize, limit: usize) -> (at: usize)
    requires
        pos <= limit <= s@.len(),
    ensures
        at == find_char(s@.subrange(0, limit as int), c, pos as int),
        pos <= at <= limit,
{
    let ghost part = s@.subrange(0, limit as int);
    let mut i = pos;
    while i < limit && s[i] != c
        invariant
            pos <= i <= limit <= s@.len(),
            part == s@.subrange(0, limit as int),
            find_char(part, c, i as int) == find_char(part, c, pos as int),
        decreases limit - i,
    {
        assert(part[i as int] == s@[i as int]);
        i += 1;
    }
    assert(i < limit ==> part[i as int] == s@[i as int]);
    i
}

} // verus!
