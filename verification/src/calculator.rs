//! An evaluator of integer arithmetic expressions.
//!
//! An expression is made of decimal numbers, the operators `+ - * / ^` and
//! parentheses, with blanks anywhere between them. `^` binds tightest and
//! groups to the right; `*` and `/` bind tighter than `+` and `-`, and all
//! four group to the left. Values are 32-bit signed integers; an operation
//! whose result is no such integer, a division by zero among them, ends the
//! evaluation with an error. A character that begins no token, or a number
//! that is no 32-bit integer, ends the expression where it stands.

use crate::text::{char_is_whitespace, skip_blanks, to_chars};
use vstd::prelude::*;

verus! {

/// Marks an operator that groups to the left.
pub const ASSOC_LEFT: i32 = 0;

/// Marks an operator that groups to the right.
pub const ASSOC_RIGHT: i32 = 1;

/// Why an expression has no value.
#[derive(Debug, PartialEq)]
pub enum ExprError {
    Parse(String),
}

/// The ways in which an expression can have no value.
#[derive(Debug, Clone, Copy, PartialEq, Eq, Structural)]
pub enum Fault {
    /// Neither a number nor `(` stands where an operand is due.
    ExpectedAtom,
    /// No `)` stands where a parenthesis is to be closed.
    UnclosedParen,
    /// An operation has no 32-bit result.
    BadOperation,
    /// Tokens follow the end of the expression.
    TrailingTokens,
}

/// A number, an operator or a parenthesis.
#[derive(Debug, Clone, Copy, PartialEq, Eq, Structural)]
pub enum Token {
    Number(i32),
    Plus,
    Minus,
    Multiply,
    Divide,
    Power,
    LeftParen,
    RightParen,
}

/// Whether Unicode counts `c` as numeric: a digit of any script, a letter
/// that stands for a number, or another numeric sign.
pub uninterp spec fn is_numeric_char(c: char) -> bool;

/// `char::is_numeric` of the standard library: whether the character is in
/// one of the Unicode general categories for numbers. The contract only
/// names the answer.
#[verifier::external_body]
fn char_is_numeric(c: char) -> (r: bool)
    ensures
        r == is_numeric_char(c),
{
    c.is_numeric()
}

/// The text of the error for `fault`.
pub open spec fn fault_text(fault: Fault) -> Seq<char> {
    match fault {
        Fault::ExpectedAtom => "Expecting a number or left parenthesis"@,
        Fault::UnclosedParen => "Unexpected character"@,
        Fault::BadOperation => "Unexpected expr"@,
        Fault::TrailingTokens => "Unexpect end of expr"@,
    }
}

/// `b` raised to the power `e`.
pub open spec fn power(b: int, e: nat) -> int
    decreases e,
{
    if e == 0 {
        1
    } else {
        b * power(b, (e - 1) as nat)
    }
}

/// The quotient of `l` by `r`, rounded towards zero.
pub open spec fn trunc_div(l: int, r: int) -> int {
    if l >= 0 {
        if r > 0 {
            l / r
        } else {
            -(l / (-r))
        }
    } else {
        if r > 0 {
            -((-l) / r)
        } else {
            (-l) / (-r)
        }
    }
}

/// `v` as a 32-bit value, if it is one.
pub open spec fn fit(v: int) -> Option<i32> {
    if i32::MIN <= v <= i32::MAX {
        Some(v as i32)
    } else {
        None
    }
}

/// The exponent that `r` stands for: `r` itself, read as an unsigned 32-bit
/// number.
pub open spec fn exponent(r: i32) -> nat {
    if r >= 0 {
        r as nat
    } else {
        (r + 0x1_0000_0000) as nat
    }
}

/// The result of the operator `op` on `l` and `r`: `None` if `op` is no
/// operator, if the result is no 32-bit integer, or on division by zero.
pub open spec fn apply(op: Token, l: i32, r: i32) -> Option<i32> {
    match op {
        Token::Plus => fit(l + r),
        Token::Minus => fit(l - r),
        Token::Multiply => fit(l * r),
        Token::Divide => if r == 0 {
            None
        } else {
            fit(trunc_div(l as int, r as int))
        },
        Token::Power => fit(power(l as int, exponent(r))),
        _ => None,
    }
}

/// Powers of zero, of one and of minus one.
pub proof fn lemma_power_small(e: nat)
    ensures
        e > 0 ==> power(0, e) == 0,
        power(1, e) == 1,
        power(-1, e) == (if e % 2 == 0 {
            1int
        } else {
            -1int
        }),
    decreases e,
{
    if e > 0 {
        lemma_power_small((e - 1) as nat);
    }
}

/// A power of a base other than zero, one and minus one is not zero and
/// grows in size with the exponent: once out of the 32-bit range, it stays
/// out.
pub proof fn lemma_power_grows(b: int, e1: nat, e2: nat)
    requires
        b >= 2 || b <= -2,
        e1 <= e2,
    ensures
        power(b, e1) != 0,
        !(i32::MIN <= power(b, e1) <= i32::MAX) ==> !(i32::MIN <= power(b, e2) <= i32::MAX),
    decreases e2,
{
    if e1 == 0 {
    } else if e1 < e2 {
        lemma_power_grows(b, e1, (e2 - 1) as nat);
        lemma_power_grows(b, (e1 - 1) as nat, (e1 - 1) as nat);
        let p = power(b, (e2 - 1) as nat);
        let q = power(b, (e1 - 1) as nat);
        assert(power(b, e1) != 0) by (nonlinear_arith)
            requires
                power(b, e1) == b * q,
                q != 0,
                b != 0,
        ;
        lemma_power_grows(b, (e2 - 1) as nat, (e2 - 1) as nat);
        if !(i32::MIN <= power(b, e1) <= i32::MAX) {
            assert(!(i32::MIN <= b * p <= i32::MAX)) by (nonlinear_arith)
                requires
                    b >= 2 || b <= -2,
                    p > i32::MAX || p < i32::MIN,
            ;
        }
    } else {
        if e1 > 0 {
            lemma_power_grows(b, (e1 - 1) as nat, (e1 - 1) as nat);
            let q = power(b, (e1 - 1) as nat);
            assert(power(b, e1) != 0) by (nonlinear_arith)
                requires
                    power(b, e1) == b * q,
                    q != 0,
                    b != 0,
            ;
        }
    }
}

impl Token {
    /// Whether the token is one of the five operators.
    pub open spec fn spec_is_operator(&self) -> bool {
        matches!(self, Token::Plus | Token::Minus | Token::Multiply | Token::Divide | Token::Power)
    }

    /// Whether the token is one of the five operators.
    #[verifier::when_used_as_spec(spec_is_operator)]
    pub fn is_operator(&self) -> (r: bool)
        ensures
            r == self.spec_is_operator(),
    {
        matches!(self, Token::Plus | Token::Minus | Token::Multiply | Token::Divide | Token::Power)
    }

    /// How tightly the operator binds; 0 for a token that is no operator.
    pub open spec fn spec_precedence(&self) -> i32 {
        match self {
            Token::Plus | Token::Minus => 1,
            Token::Multiply | Token::Divide => 2,
            Token::Power => 3,
            _ => 0,
        }
    }

    /// How tightly the operator binds; 0 for a token that is no operator.
    #[verifier::when_used_as_spec(spec_precedence)]
    pub fn precedence(&self) -> (r: i32)
        ensures
            r == self.spec_precedence(),
    {
        match self {
            Token::Plus | Token::Minus => 1,
            Token::Multiply | Token::Divide => 2,
            Token::Power => 3,
            _ => 0,
        }
    }

    /// To which side the operator groups: `^` to the right, the others to
    /// the left.
    pub open spec fn spec_assoc(&self) -> i32 {
        match self {
            Token::Power => ASSOC_RIGHT,
            _ => ASSOC_LEFT,
        }
    }

    /// To which side the operator groups.
    #[verifier::when_used_as_spec(spec_assoc)]
    pub fn assoc(&self) -> (r: i32)
        ensures
            r == self.spec_assoc(),
    {
        match self {
            Token::Power => ASSOC_RIGHT,
            _ => ASSOC_LEFT,
        }
    }

    /// Applies the operator to `l` and `r`.
    pub fn computer(&self, l: i32, r: i32) -> (v: Option<i32>)
        ensures
            v == apply(*self, l, r),
    {
        match self {
            Token::Plus => narrow(l as i64 + r as i64),
            Token::Minus => narrow(l as i64 - r as i64),
            Token::Multiply => {
                assert(-0x4000_0000_0000_0000 <= l * r <= 0x4000_0000_0000_0000)
                    by (nonlinear_arith)
                    requires
                        -0x8000_0000 <= l <= 0x7FFF_FFFF,
                        -0x8000_0000 <= r <= 0x7FFF_FFFF,
                ;
                narrow(l as i64 * r as i64)
            },
            Token::Divide => {
                if r == 0 {
                    None
                } else {
                    let a: i64 = if l >= 0 {
                        l as i64
                    } else {
                        -(l as i64)
                    };
                    let b: i64 = if r > 0 {
                        r as i64
                    } else {
                        -(r as i64)
                    };
                    let q = a / b;
                    assert(0 <= q <= a) by (nonlinear_arith)
                        requires
                            q == a / b,
                            a >= 0,
                            b > 0,
                    ;
                    if (l >= 0) == (r > 0) {
                        narrow(q)
                    } else {
                        narrow(-q)
                    }
                }
            },
            Token::Power => {
                let e: u32 = if r >= 0 {
                    r as u32
                } else {
                    (r as i64 + 0x1_0000_0000) as u32
                };
                int_power(l, e)
            },
            _ => None,
        }
    }
}

/// `v` as a 32-bit value, if it is one.
fn narrow(v: i64) -> (r: Option<i32>)
    ensures
        r == fit(v as int),
{
    if v < -0x8000_0000 || v > 0x7FFF_FFFF {
        None
    } else {
        Some(v as i32)
    }
}

/// `b` raised to the power `e`, if that is a 32-bit integer.
fn int_power(b: i32, e: u32) -> (r: Option<i32>)
    ensures
        r == fit(power(b as int, e as nat)),
{
    proof {
        lemma_power_small(e as nat);
    }
    if e == 0 || b == 1 {
        return Some(1);
    }
    if b == 0 {
        return Some(0);
    }
    if b == -1 {
        return if e % 2 == 0 {
            Some(1)
        } else {
            Some(-1)
        };
    }
    let mut acc: i32 = 1;
    let mut i: u32 = 0;
    while i < e
        invariant
            i <= e,
            b >= 2 || b <= -2,
            acc == power(b as int, i as nat),
        decreases e - i,
    {
        assert(-0x4000_0000_0000_0000 <= acc * b <= 0x4000_0000_0000_0000) by (nonlinear_arith)
            requires
                -0x8000_0000 <= acc <= 0x7FFF_FFFF,
                -0x8000_0000 <= b <= 0x7FFF_FFFF,
        ;
        let next = acc as i64 * b as i64;
        assert(next == power(b as int, (i + 1) as nat)) by {
            assert(power(b as int, (i + 1) as nat) == b * power(b as int, i as nat));
            assert(acc * b == b * acc) by (nonlinear_arith);
        }
        if next < -0x8000_0000 || next > 0x7FFF_FFFF {
            proof {
                lemma_power_grows(b as int, (i + 1) as nat, e as nat);
            }
            return None;
        }
        acc = next as i32;
        i += 1;
    }
    Some(acc)
}

/// The place of the first character from `pos` on that is not numeric.
pub open spec fn digits_end(s: Seq<char>, pos: int) -> int
    decreases s.len() - pos,
{
    if 0 <= pos < s.len() && is_numeric_char(s[pos]) {
        digits_end(s, pos + 1)
    } else {
        pos
    }
}

/// Whether `c` is one of the decimal digits `0` to `9`.
pub open spec fn is_decimal(c: char) -> bool {
    '0' <= c <= '9'
}

/// The number that `ds` denotes in decimal, if `ds` is made of the digits
/// `0` to `9` only; the empty string denotes nothing.
pub open spec fn decimal_value(ds: Seq<char>) -> Option<int>
    decreases ds.len(),
{
    if ds.len() == 0 {
        None
    } else if !is_decimal(ds.last()) {
        None
    } else if ds.len() == 1 {
        Some(digit_value(ds.last()))
    } else {
        match decimal_value(ds.drop_last()) {
            Some(v) => Some(v * 10 + digit_value(ds.last())),
            None => None,
        }
    }
}

/// The 32-bit number that `ds` spells in decimal, if it spells one.
pub open spec fn number_value(ds: Seq<char>) -> Option<i32> {
    match decimal_value(ds) {
        Some(v) => if v <= i32::MAX {
            Some(v as i32)
        } else {
            None
        },
        None => None,
    }
}

/// The number token that `ds` spells, if it spells a 32-bit integer.
pub open spec fn number_token(ds: Seq<char>) -> Option<Token> {
    match number_value(ds) {
        Some(n) => Some(Token::Number(n)),
        None => None,
    }
}

/// The value of the decimal digit `c`.
pub open spec fn digit_value(c: char) -> int {
    c as int - '0' as int
}

/// The number spelled by `ds` and one more character `c`, from the number
/// that `ds` spells.
pub open spec fn number_step(so_far: Option<i32>, c: char) -> Option<i32> {
    match so_far {
        Some(v) => if is_decimal(c) && v * 10 + digit_value(c) <= i32::MAX {
            Some((v * 10 + digit_value(c)) as i32)
        } else {
            None
        },
        None => None,
    }
}

/// The operator or parenthesis that `c` spells.
pub open spec fn operator_token(c: char) -> Option<Token> {
    if c == '+' {
        Some(Token::Plus)
    } else if c == '-' {
        Some(Token::Minus)
    } else if c == '*' {
        Some(Token::Multiply)
    } else if c == '/' {
        Some(Token::Divide)
    } else if c == '^' {
        Some(Token::Power)
    } else if c == '(' {
        Some(Token::LeftParen)
    } else if c == ')' {
        Some(Token::RightParen)
    } else {
        None
    }
}

/// The first token of `s` from `pos` on, with the place after it: blanks are
/// skipped, a run of numeric characters is read as a number, and any other
/// character as an operator or parenthesis. `None` at the end of `s`, and
/// where the characters spell no token.
pub open spec fn next_token(s: Seq<char>, pos: int) -> Option<(Token, int)> {
    let p = skip_blanks(s, pos);
    if !(0 <= p < s.len()) {
        None
    } else if is_numeric_char(s[p]) {
        match number_token(s.subrange(p, digits_end(s, p))) {
            Some(t) => Some((t, digits_end(s, p))),
            None => None,
        }
    } else {
        match operator_token(s[p]) {
            Some(t) => Some((t, p + 1)),
            None => None,
        }
    }
}

/// The place up to which `s` is read when a token is looked for at `pos`:
/// past the blanks, and then past a run of numeric characters or past one
/// other character.
pub open spec fn next_position(s: Seq<char>, pos: int) -> int {
    let p = skip_blanks(s, pos);
    if !(0 <= p < s.len()) {
        p
    } else if is_numeric_char(s[p]) {
        digits_end(s, p)
    } else {
        p + 1
    }
}

/// The tokens of `s` from `pos` on, up to its end or to the first place that
/// spells no token.
pub open spec fn tokens_from(s: Seq<char>, pos: int) -> Seq<Token>
    decreases s.len() - pos,
{
    match next_token(s, pos) {
        Some((t, end)) => if pos < end <= s.len() {
            seq![t] + tokens_from(s, end)
        } else {
            Seq::empty()
        },
        None => Seq::empty(),
    }
}

/// Skipping blanks and reading digits moves forward and stays within `s`.
pub proof fn lemma_scan_bounds(s: Seq<char>, pos: int)
    requires
        0 <= pos <= s.len(),
    ensures
        pos <= skip_blanks(s, pos) <= s.len(),
        pos <= digits_end(s, pos) <= s.len(),
        pos < s.len() && is_numeric_char(s[pos]) ==> pos < digits_end(s, pos),
    decreases s.len() - pos,
{
    if pos < s.len() {
        lemma_scan_bounds(s, pos + 1);
    }
}

/// A token ends after the place where it was looked for, and within `s`.
pub proof fn lemma_next_token_bounds(s: Seq<char>, pos: int)
    requires
        0 <= pos <= s.len(),
    ensures
        next_token(s, pos) matches Some((_, end)) ==> pos < end <= s.len(),
{
    lemma_scan_bounds(s, pos);
    lemma_scan_bounds(s, skip_blanks(s, pos));
}

/// A decimal value is not negative.
pub proof fn lemma_decimal_nonnegative(ds: Seq<char>)
    ensures
        decimal_value(ds) matches Some(v) ==> v >= 0,
    decreases ds.len(),
{
    if ds.len() > 1 {
        lemma_decimal_nonnegative(ds.drop_last());
    }
}

/// The number that a run of characters spells is found digit by digit: the
/// first character gives its own value, and each further one ten times the
/// number so far and its own value, as long as that is a 32-bit integer.
pub proof fn lemma_number_step(ds: Seq<char>)
    requires
        ds.len() > 0,
    ensures
        ds.len() == 1 ==> number_value(ds) == (if is_decimal(ds.last()) {
            Some(digit_value(ds.last()) as i32)
        } else {
            None
        }),
        ds.len() > 1 ==> number_value(ds) == number_step(number_value(ds.drop_last()), ds.last()),
{
    lemma_decimal_nonnegative(ds.drop_last());
}

/// Cuts an expression into tokens.
pub struct Tokenizer {
    chars: Vec<char>,
    pos: usize,
}

impl Tokenizer {
    /// The characters of the expression.
    pub closed spec fn text(&self) -> Seq<char> {
        self.chars@
    }

    /// The place of the next character to read.
    pub closed spec fn position(&self) -> int {
        self.pos as int
    }

    /// The position lies within the text.
    pub open spec fn wf(&self) -> bool {
        0 <= self.position() <= self.text().len()
    }

    /// A tokenizer at the start of `input`.
    pub fn new(input: &str) -> (t: Tokenizer)
        ensures
            t.wf(),
            t.text() == input@,
            t.position() == 0,
    {
        Tokenizer { chars: to_chars(input), pos: 0 }
    }

    /// Moves past the blanks at the current position.
    pub fn consume_whitespace(&mut self)
        requires
            old(self).wf(),
        ensures
            final(self).wf(),
            final(self).text() == old(self).text(),
            final(self).position() == skip_blanks(old(self).text(), old(self).position()),
    {
        while self.pos < self.chars.len() && char_is_whitespace(self.chars[self.pos])
            invariant
                self.wf(),
                self.chars == old(self).chars,
                skip_blanks(self.chars@, self.pos as int) == skip_blanks(
                    old(self).text(),
                    old(self).position(),
                ),
            decreases self.chars@.len() - self.pos,
        {
            self.pos = self.pos + 1;
        }
    }

    /// Reads the run of numeric characters at the current position as a
    /// decimal number. `None` if the run is empty, holds a character other
    /// than the digits `0` to `9`, or spells no 32-bit integer.
    pub fn scan_number(&mut self) -> (r: Option<Token>)
        requires
            old(self).wf(),
        ensures
            final(self).wf(),
            final(self).text() == old(self).text(),
            final(self).position() == digits_end(old(self).text(), old(self).position()),
            r == number_token(
                old(self).text().subrange(old(self).position(), final(self).position()),
            ),
    {
        let start = self.pos;
        // The number that the characters read so far spell.
        let mut value: Option<i32> = None;
        while self.pos < self.chars.len() && char_is_numeric(self.chars[self.pos])
            invariant
                self.wf(),
                self.chars == old(self).chars,
                start == old(self).pos,
                start <= self.pos,
                digits_end(self.chars@, self.pos as int) == digits_end(
                    old(self).text(),
                    old(self).position(),
                ),
                value == number_value(self.chars@.subrange(start as int, self.pos as int)),
            decreases self.chars@.len() - self.pos,
        {
            let c = self.chars[self.pos];
            proof {
                let run = self.chars@.subrange(start as int, self.pos + 1);
                assert(run.drop_last() =~= self.chars@.subrange(start as int, self.pos as int));
                assert(run.last() == c);
                lemma_number_step(run);
            }
            let digit: Option<i64> = if c >= '0' && c <= '9' {
                Some((c as u32 - '0' as u32) as i64)
            } else {
                None
            };
            value = match (digit, value, self.pos == start) {
                (Some(d), _, true) => Some(d as i32),
                (Some(d), Some(v), false) => {
                    let next = v as i64 * 10 + d;
                    if next <= 0x7FFF_FFFF {
                        Some(next as i32)
                    } else {
                        None
                    }
                },
                _ => None,
            };
            self.pos = self.pos + 1;
        }
        match value {
            Some(v) => Some(Token::Number(v)),
            None => None,
        }
    }

    /// Reads one character as an operator or parenthesis. `None` at the end
    /// of the text and for any other character, which is consumed too.
    pub fn scan_operator(&mut self) -> (r: Option<Token>)
        requires
            old(self).wf(),
        ensures
            final(self).wf(),
            final(self).text() == old(self).text(),
            old(self).position() < old(self).text().len() ==> {
                &&& final(self).position() == old(self).position() + 1
                &&& r == operator_token(old(self).text()[old(self).position()])
            },
            old(self).position() == old(self).text().len() ==> {
                &&& final(self).position() == old(self).position()
                &&& r is None
            },
    {
        if self.pos >= self.chars.len() {
            return None;
        }
        let c = self.chars[self.pos];
        self.pos = self.pos + 1;
        if c == '+' {
            Some(Token::Plus)
        } else if c == '-' {
            Some(Token::Minus)
        } else if c == '*' {
            Some(Token::Multiply)
        } else if c == '/' {
            Some(Token::Divide)
        } else if c == '^' {
            Some(Token::Power)
        } else if c == '(' {
            Some(Token::LeftParen)
        } else if c == ')' {
            Some(Token::RightParen)
        } else {
            None
        }
    }

    /// The next token, with the blanks before it skipped. `None` at the end
    /// of the text, and where the characters spell no token.
    pub fn next(&mut self) -> (r: Option<Token>)
        requires
            old(self).wf(),
        ensures
            final(self).wf(),
            final(self).text() == old(self).text(),
            final(self).position() == next_position(old(self).text(), old(self).position()),
            match next_token(old(self).text(), old(self).position()) {
                Some((t, end)) => r == Some(t) && final(self).position() == end,
                None => r is None,
            },
    {
        proof {
            lemma_scan_bounds(self.chars@, self.pos as int);
        }
        self.consume_whitespace();
        if self.pos < self.chars.len() {
            if char_is_numeric(self.chars[self.pos]) {
                self.scan_number()
            } else {
                self.scan_operator()
            }
        } else {
            None
        }
    }
}

/// The precedence that the right operand of `op` must have at least: one
/// more than that of `op` if `op` groups to the left, the same if it groups
/// to the right.
pub open spec fn operand_precedence(op: Token) -> int {
    if op.assoc() == ASSOC_LEFT {
        op.precedence() + 1
    } else {
        op.precedence() as int
    }
}

/// The value of the operand at `pos`, a number or an expression in
/// parentheses, with the place after it.
pub open spec fn parse_atom(ts: Seq<Token>, pos: int) -> Result<(i32, int), Fault>
    decreases ts.len() - pos, 0int,
{
    if 0 <= pos < ts.len() {
        match ts[pos] {
            Token::Number(n) => Ok((n, pos + 1)),
            Token::LeftParen => match parse_expr(ts, pos + 1, 1) {
                Ok((v, p)) => if 0 <= p < ts.len() && ts[p] == Token::RightParen {
                    Ok((v, p + 1))
                } else {
                    Err(Fault::UnclosedParen)
                },
                Err(f) => Err(f),
            },
            _ => Err(Fault::ExpectedAtom),
        }
    } else {
        Err(Fault::ExpectedAtom)
    }
}

/// The value of the expression at `pos` whose operators all have at least
/// the precedence `min_precedence`, with the place after it.
pub open spec fn parse_expr(ts: Seq<Token>, pos: int, min_precedence: int) -> Result<
    (i32, int),
    Fault,
>
    decreases ts.len() - pos, 2int,
{
    match parse_atom(ts, pos) {
        Ok((lhs, p)) => if pos < p <= ts.len() {
            parse_rest(ts, p, lhs, min_precedence)
        } else {
            Err(Fault::ExpectedAtom)
        },
        Err(f) => Err(f),
    }
}

/// The value of the expression whose left part has the value `lhs` and
/// which goes on at `pos`: as long as an operator of at least the
/// precedence `min_precedence` follows, it is applied to the value so far
/// and to the expression at its right.
pub open spec fn parse_rest(ts: Seq<Token>, pos: int, lhs: i32, min_precedence: int) -> Result<
    (i32, int),
    Fault,
>
    decreases ts.len() - pos, 1int,
{
    if 0 <= pos < ts.len() && ts[pos].is_operator() && ts[pos].precedence() >= min_precedence {
        match parse_expr(ts, pos + 1, operand_precedence(ts[pos])) {
            Ok((rhs, p)) => match apply(ts[pos], lhs, rhs) {
                Some(v) => if pos < p <= ts.len() {
                    parse_rest(ts, p, v, min_precedence)
                } else {
                    Err(Fault::BadOperation)
                },
                None => Err(Fault::BadOperation),
            },
            Err(f) => Err(f),
        }
    } else {
        Ok((lhs, pos))
    }
}

/// The value of the tokens from `pos` on, read as one whole expression.
pub open spec fn eval_tokens(ts: Seq<Token>, pos: int) -> Result<i32, Fault> {
    match parse_expr(ts, pos, 1) {
        Ok((v, p)) => if p < ts.len() {
            Err(Fault::TrailingTokens)
        } else {
            Ok(v)
        },
        Err(f) => Err(f),
    }
}

/// An operand takes at least one token and ends within the tokens.
pub proof fn lemma_atom_advances(ts: Seq<Token>, pos: int)
    requires
        0 <= pos <= ts.len(),
    ensures
        parse_atom(ts, pos) matches Ok((_, p)) ==> pos < p <= ts.len(),
    decreases ts.len() - pos, 0int,
{
    if pos < ts.len() && ts[pos] == Token::LeftParen {
        lemma_expr_advances(ts, pos + 1, 1);
    }
}

/// An expression takes at least one token and ends within the tokens.
pub proof fn lemma_expr_advances(ts: Seq<Token>, pos: int, min_precedence: int)
    requires
        0 <= pos <= ts.len(),
    ensures
        parse_expr(ts, pos, min_precedence) matches Ok((_, p)) ==> pos < p <= ts.len(),
    decreases ts.len() - pos, 2int,
{
    lemma_atom_advances(ts, pos);
    if let Ok((lhs, p)) = parse_atom(ts, pos) {
        lemma_rest_advances(ts, p, lhs, min_precedence);
    }
}

/// The rest of an expression ends at or after the place where it goes on,
/// within the tokens.
pub proof fn lemma_rest_advances(ts: Seq<Token>, pos: int, lhs: i32, min_precedence: int)
    requires
        0 <= pos <= ts.len(),
    ensures
        parse_rest(ts, pos, lhs, min_precedence) matches Ok((_, p)) ==> pos <= p <= ts.len(),
    decreases ts.len() - pos, 1int,
{
    if pos < ts.len() && ts[pos].is_operator() && ts[pos].precedence() >= min_precedence {
        lemma_expr_advances(ts, pos + 1, operand_precedence(ts[pos]));
        if let Ok((rhs, p)) = parse_expr(ts, pos + 1, operand_precedence(ts[pos])) {
            if let Some(v) = apply(ts[pos], lhs, rhs) {
                lemma_rest_advances(ts, p, v, min_precedence);
            }
        }
    }
}

/// The error that reports `fault`.
pub fn fault_error(fault: Fault) -> (e: ExprError)
    ensures
        e matches ExprError::Parse(text) && text@ == fault_text(fault),
{
    match fault {
        Fault::ExpectedAtom => ExprError::Parse(
            "Expecting a number or left parenthesis".to_owned(),
        ),
        Fault::UnclosedParen => ExprError::Parse("Unexpected character".to_owned()),
        Fault::BadOperation => ExprError::Parse("Unexpected expr".to_owned()),
        Fault::TrailingTokens => ExprError::Parse("Unexpect end of expr".to_owned()),
    }
}

/// What an evaluation returns for the outcome `outcome`.
pub open spec fn reports(r: Result<i32, ExprError>, outcome: Result<i32, Fault>) -> bool {
    match outcome {
        Ok(v) => r == Ok::<i32, ExprError>(v),
        Err(fault) => r matches Err(ExprError::Parse(text)) && text@ == fault_text(fault),
    }
}

impl ExprError {
    /// The text of the error.
    pub fn message(&self) -> (text: String)
        ensures
            self matches ExprError::Parse(t) && text@ == t@,
    {
        match self {
            ExprError::Parse(t) => t.clone(),
        }
    }
}

/// An expression to evaluate: its tokens, and how far they have been read.
pub struct Expr {
    tokens: Vec<Token>,
    pos: usize,
}

impl Expr {
    /// The tokens of the expression.
    pub closed spec fn tokens(&self) -> Seq<Token> {
        self.tokens@
    }

    /// The number of tokens that have been read.
    pub closed spec fn position(&self) -> int {
        self.pos as int
    }

    /// The position lies within the tokens.
    pub open spec fn wf(&self) -> bool {
        0 <= self.position() <= self.tokens().len()
    }

    /// The expression that `input` spells, with none of its tokens read.
    pub fn new(input: &str) -> (expr: Expr)
        ensures
            expr.wf(),
            expr.tokens() == tokens_from(input@, 0),
            expr.position() == 0,
    {
        let mut tokenizer = Tokenizer::new(input);
        let mut tokens: Vec<Token> = Vec::new();
        loop
            invariant_except_break
                tokenizer.wf(),
                tokenizer.text() == input@,
                tokens_from(input@, 0) == tokens@ + tokens_from(input@, tokenizer.position()),
            ensures
                tokens@ == tokens_from(input@, 0),
            decreases input@.len() - tokenizer.position(),
        {
            let ghost at = tokenizer.position();
            proof {
                lemma_next_token_bounds(input@, at);
            }
            match tokenizer.next() {
                Some(t) => {
                    proof {
                        let rest = tokens_from(input@, tokenizer.position());
                        assert(tokens@ + (seq![t] + rest) =~= tokens@.push(t) + rest);
                    }
                    tokens.push(t);
                },
                None => {
                    assert(tokens@ + Seq::<Token>::empty() =~= tokens@);
                    break ;
                },
            }
        }
        Expr { tokens, pos: 0 }
    }

    /// Evaluates the tokens from the current position on as one whole
    /// expression.
    pub fn eval(&mut self) -> (r: Result<i32, ExprError>)
        requires
            old(self).wf(),
        ensures
            final(self).wf(),
            final(self).tokens() == old(self).tokens(),
            reports(r, eval_tokens(old(self).tokens(), old(self).position())),
    {
        let result = match self.compute_expr(1) {
            Ok(v) => v,
            Err(fault) => {
                return Err(fault_error(fault));
            },
        };
        if self.pos < self.tokens.len() {
            return Err(fault_error(Fault::TrailingTokens));
        }
        Ok(result)
    }

    /// Reads the operand at the current position: a number, or an expression
    /// in parentheses.
    fn compute_atom(&mut self) -> (r: Result<i32, Fault>)
        requires
            old(self).wf(),
        ensures
            final(self).wf(),
            final(self).tokens() == old(self).tokens(),
            match parse_atom(old(self).tokens(), old(self).position()) {
                Ok((v, p)) => r == Ok::<i32, Fault>(v) && final(self).position() == p,
                Err(f) => r == Err::<i32, Fault>(f),
            },
        decreases old(self).tokens().len() - old(self).position(), 0int,
    {
        if self.pos >= self.tokens.len() {
            return Err(Fault::ExpectedAtom);
        }
        match self.tokens[self.pos] {
            Token::Number(n) => {
                self.pos = self.pos + 1;
                Ok(n)
            },
            Token::LeftParen => {
                self.pos = self.pos + 1;
                let result = match self.compute_expr(1) {
                    Ok(v) => v,
                    Err(f) => {
                        return Err(f);
                    },
                };
                if self.pos < self.tokens.len() && self.tokens[self.pos] == Token::RightParen {
                    self.pos = self.pos + 1;
                    Ok(result)
                } else {
                    Err(Fault::UnclosedParen)
                }
            },
            _ => Err(Fault::ExpectedAtom),
        }
    }

    /// Reads the expression at the current position whose operators all have
    /// at least the precedence `min_precedence`.
    fn compute_expr(&mut self, min_precedence: i32) -> (r: Result<i32, Fault>)
        requires
            old(self).wf(),
        ensures
            final(self).wf(),
            final(self).tokens() == old(self).tokens(),
            match parse_expr(old(self).tokens(), old(self).position(), min_precedence as int) {
                Ok((v, p)) => r == Ok::<i32, Fault>(v) && final(self).position() == p,
                Err(f) => r == Err::<i32, Fault>(f),
            },
        decreases old(self).tokens().len() - old(self).position(), 2int,
    {
        let ghost ts = self.tokens@;
        let ghost start = self.pos as int;
        proof {
            lemma_atom_advances(ts, start);
        }
        let mut atom_lhs = match self.compute_atom() {
            Ok(v) => v,
            Err(f) => {
                return Err(f);
            },
        };
        loop
            invariant
                self.wf(),
                self.tokens@ == ts,
                ts == old(self).tokens(),
                start == old(self).position(),
                start < self.pos,
                parse_rest(ts, self.pos as int, atom_lhs, min_precedence as int) == parse_expr(
                    ts,
                    start,
                    min_precedence as int,
                ),
            ensures
                self.wf(),
                self.tokens@ == ts,
                parse_expr(ts, start, min_precedence as int) == Ok::<(i32, int), Fault>(
                    (atom_lhs, self.pos as int),
                ),
            decreases ts.len() - self.pos,
        {
            if self.pos >= self.tokens.len() {
                break ;
            }
            let token = self.tokens[self.pos];
            if !token.is_operator() || token.precedence() < min_precedence {
                break ;
            }
            let mut next_precedence = token.precedence();
            if token.assoc() == ASSOC_LEFT {
                next_precedence += 1;
            }
            let ghost at = self.pos as int;
            self.pos = self.pos + 1;
            proof {
                lemma_expr_advances(ts, at + 1, operand_precedence(token));
            }
            let atom_rhs = match self.compute_expr(next_precedence) {
                Ok(v) => v,
                Err(f) => {
                    return Err(f);
                },
            };
            match token.computer(atom_lhs, atom_rhs) {
                Some(val) => {
                    atom_lhs = val;
                },
                None => {
                    return Err(Fault::BadOperation);
                },
            }
        }
        Ok(atom_lhs)
    }
}

} // verus!
