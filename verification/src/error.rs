// Parse errors: what went wrong and where, as byte spans of the input.

use crate::text::push_char;
use std::ops::Range;
use vstd::prelude::*;

verus! {

/// The syntax error kinds returned during parsing.
#[derive(Debug, PartialEq, Eq)]
pub enum ParseErrorKind {
    EmptyPattern,
    InvalidOperator(String),
    /// An operator with this name was already registered in the builder.
    DuplicateOperator(String),
    MismatchedParentheses,
    UnexpectedParen,
    UnterminatedBracketSet,
    EmptyBrackets,
    UnexpectedTrailingCharacters,
    /// The character after a backslash is not a recognized escapable character.
    InvalidEscape(char),
}

/// Syntax error information pointing to the exact locations inside the pattern.
#[derive(Debug, PartialEq, Eq)]
pub struct ParseError {
    /// The type of syntax error that occurred.
    pub kind: ParseErrorKind,
    /// The span of the offending characters relative to the input string start.
    pub span: Range<usize>,
    /// An explanation of the error.
    pub message: String,
}

/// The mathematical value of a [`ParseErrorKind`].
pub ghost enum KindSpec {
    EmptyPattern,
    InvalidOperator(Seq<char>),
    DuplicateOperator(Seq<char>),
    MismatchedParentheses,
    UnexpectedParen,
    UnterminatedBracketSet,
    EmptyBrackets,
    UnexpectedTrailingCharacters,
    InvalidEscape(char),
}

/// The mathematical value of a [`ParseError`]: its kind, the byte span
/// `start..end` and the message.
pub ghost struct ErrorSpec {
    pub kind: KindSpec,
    pub start: int,
    pub end: int,
    pub message: Seq<char>,
}

impl View for ParseErrorKind {
    type V = KindSpec;

    open spec fn view(&self) -> KindSpec {
        match self {
            ParseErrorKind::EmptyPattern => KindSpec::EmptyPattern,
            ParseErrorKind::InvalidOperator(s) => KindSpec::InvalidOperator(s@),
            ParseErrorKind::DuplicateOperator(s) => KindSpec::DuplicateOperator(s@),
            ParseErrorKind::MismatchedParentheses => KindSpec::MismatchedParentheses,
            ParseErrorKind::UnexpectedParen => KindSpec::UnexpectedParen,
            ParseErrorKind::UnterminatedBracketSet => KindSpec::UnterminatedBracketSet,
            ParseErrorKind::EmptyBrackets => KindSpec::EmptyBrackets,
            ParseErrorKind::UnexpectedTrailingCharacters => KindSpec::UnexpectedTrailingCharacters,
            ParseErrorKind::InvalidEscape(c) => KindSpec::InvalidEscape(*c),
        }
    }
}

impl View for ParseError {
    type V = ErrorSpec;

    open spec fn view(&self) -> ErrorSpec {
        ErrorSpec {
            kind: self.kind@,
            start: self.span.start as int,
            end: self.span.end as int,
            message: self.message@,
        }
    }
}

pub open spec fn error_spec(kind: KindSpec, start: int, end: int, message: Seq<char>) -> ErrorSpec {
    ErrorSpec { kind, start, end, message }
}

/// Decimal digits of `n`, most significant first.
pub open spec fn decimal(n: nat) -> Seq<char>
    decreases n,
{
    if n < 10 {
        seq![digit_char(n)]
    } else {
        decimal(n / 10).push(digit_char(n % 10))
    }
}

pub open spec fn digit_char(d: nat) -> char {
    (('0' as u32) + d) as char
}

/// The text form of an error: its message, then ` at `, then its span
/// written `start..end`.
pub open spec fn error_text(e: ErrorSpec) -> Seq<char> {
    e.message + " at "@ + decimal(e.start as nat) + ".."@ + decimal(e.end as nat)
}

fn push_decimal(s: &mut String, n: usize)
    ensures
        final(s)@ == old(s)@ + decimal(n as nat),
    decreases n,
{
    if n >= 10 {
        push_decimal(s, n / 10);
    }
    let d = (n % 10) as u32;
    let c = char_from_digit(d);
    push_char(s, c);
    assert(final(s)@ =~= old(s)@ + decimal(n as nat));
}

fn char_from_digit(d: u32) -> (c: char)
    requires
        d < 10,
    ensures
        c == digit_char(d as nat),
{
    if d == 0 {
        '0'
    } else if d == 1 {
        '1'
    } else if d == 2 {
        '2'
    } else if d == 3 {
        '3'
    } else if d == 4 {
        '4'
    } else if d == 5 {
        '5'
    } else if d == 6 {
        '6'
    } else if d == 7 {
        '7'
    } else if d == 8 {
        '8'
    } else {
        '9'
    }
}

impl Clone for ParseErrorKind {
    fn clone(&self) -> (r: Self)
        ensures
            r@ == self@,
    {
        match self {
            ParseErrorKind::EmptyPattern => ParseErrorKind::EmptyPattern,
            ParseErrorKind::InvalidOperator(s) => ParseErrorKind::InvalidOperator(s.clone()),
            ParseErrorKind::DuplicateOperator(s) => ParseErrorKind::DuplicateOperator(s.clone()),
            ParseErrorKind::MismatchedParentheses => ParseErrorKind::MismatchedParentheses,
            ParseErrorKind::UnexpectedParen => ParseErrorKind::UnexpectedParen,
            ParseErrorKind::UnterminatedBracketSet => ParseErrorKind::UnterminatedBracketSet,
            ParseErrorKind::EmptyBrackets => ParseErrorKind::EmptyBrackets,
            ParseErrorKind::UnexpectedTrailingCharacters => ParseErrorKind::UnexpectedTrailingCharacters,
            ParseErrorKind::InvalidEscape(c) => ParseErrorKind::InvalidEscape(*c),
        }
    }
}

impl Clone for ParseError {
    fn clone(&self) -> (r: Self)
        ensures
            r@ == self@,
    {
        ParseError {
            kind: self.kind.clone(),
            span: Range { start: self.span.start, end: self.span.end },
            message: self.message.clone(),
        }
    }
}

impl ParseError {
    /// The text form of the error, `"<message> at <start>..<end>"`.
    pub fn to_string(&self) -> (s: String)
        ensures
            s@ == error_text(self@),
    {
        let mut s = self.message.clone();
        s.append(" at ");
        push_decimal(&mut s, self.span.start);
        s.append("..");
        push_decimal(&mut s, self.span.end);
        s
    }
}

} // verus!
