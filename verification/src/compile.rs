// Compiles a wildcard string into the flat token list that the matcher runs.
// The scanner works on a window `cs[lo..hi]` of a character sequence whose
// byte positions are known, so that error spans are byte offsets of the
// whole input.

use crate::error::{error_spec, ErrorSpec, KindSpec, ParseError, ParseErrorKind};
use crate::text::{byte_len, byte_offset, chars_and_positions, is_alphanumeric_char, push_char,
    char_is_alphanumeric, lemma_byte_offset_step, utf8_width};
use crate::token::{tokens_view, MatchToken, TokenSpec};
use std::collections::BTreeSet;
use std::ops::Range;
use vstd::prelude::*;
use vstd::utf8::{char_is_scalar, is_scalar};

verus! {

/// Byte position of character `i` of `cs`.
pub open spec fn bo(cs: Seq<char>, i: int) -> int {
    byte_offset(cs, i) as int
}

/// `pos` lists the byte position of every character boundary of `cs`.
pub open spec fn positions_ok(cs: Seq<char>, pos: Seq<usize>) -> bool {
    &&& pos.len() == cs.len() + 1
    &&& forall|i: int| 0 <= i <= cs.len() ==> #[trigger] pos[i] == byte_offset(cs, i)
    &&& byte_len(cs) <= usize::MAX
}

/// Characters that may follow a backslash escape.
pub open spec fn is_escapable(c: char) -> bool {
    c == '*' || c == '?' || c == '[' || c == ']' || c == '(' || c == ')' || c == '"' || c == '\\'
}

/// Message of an invalid escape `\c`.
pub open spec fn escape_message(c: char) -> Seq<char> {
    if is_alphanumeric_char(c) || c == '.' || c == '_' {
        "Backslash is the escape character; use '/' as the path separator in flexiglob patterns"@
    } else {
        "'\\"@ + seq![c] + "' is not a recognized escape sequence"@
    }
}

/// The error for a backslash at `j` followed by the non-escapable `cs[j + 1]`.
pub open spec fn escape_error(cs: Seq<char>, j: int) -> ErrorSpec {
    error_spec(
        KindSpec::InvalidEscape(cs[j + 1]),
        bo(cs, j),
        bo(cs, j + 1) + utf8_width(cs[j + 1]),
        escape_message(cs[j + 1]),
    )
}

/// Members of the bracket range `lo-hi`: every scalar value from `lo` to `hi`,
/// or, when `lo > hi`, the three characters `lo`, `-` and `hi`.
pub open spec fn range_members(lo: char, hi: char) -> Set<u32> {
    if (lo as u32) <= (hi as u32) {
        Set::new(|v: u32| (lo as u32) <= v <= (hi as u32) && is_scalar(v))
    } else {
        set![lo as u32, '-' as u32, hi as u32]
    }
}

/// Outcome of scanning the inside of a bracket set.
pub ghost enum BracketScan {
    /// The set was closed by `]`; scanning resumes at `next`.
    Closed { members: Set<u32>, next: int },
    Failed { error: ErrorSpec },
}

pub open spec fn add_members(m: Set<u32>, r: BracketScan) -> BracketScan {
    match r {
        BracketScan::Closed { members, next } => BracketScan::Closed {
            members: m.union(members),
            next,
        },
        BracketScan::Failed { error } => BracketScan::Failed { error },
    }
}

/// Scans the members of the bracket set opened at `open`, from `j` on.
pub open spec fn scan_bracket(cs: Seq<char>, open: int, j: int, hi: int) -> BracketScan
    decreases hi - j,
{
    if j >= hi {
        BracketScan::Failed {
            error: error_spec(
                KindSpec::UnterminatedBracketSet,
                bo(cs, open),
                bo(cs, hi),
                "Unterminated bracket set"@,
            ),
        }
    } else if cs[j] == ']' {
        BracketScan::Closed { members: Set::empty(), next: j + 1 }
    } else if cs[j] == '\\' {
        if j + 1 < hi {
            if !is_escapable(cs[j + 1]) {
                BracketScan::Failed { error: escape_error(cs, j) }
            } else {
                add_members(set![cs[j + 1] as u32], scan_bracket(cs, open, j + 2, hi))
            }
        } else {
            BracketScan::Failed {
                error: error_spec(
                    KindSpec::UnterminatedBracketSet,
                    bo(cs, open),
                    bo(cs, hi),
                    "Dangling backslash inside bracket set"@,
                ),
            }
        }
    } else if j + 2 < hi && cs[j + 1] == '-' {
        add_members(range_members(cs[j], cs[j + 2]), scan_bracket(cs, open, j + 3, hi))
    } else {
        add_members(set![cs[j] as u32], scan_bracket(cs, open, j + 1, hi))
    }
}

pub proof fn lemma_scan_bracket_next(cs: Seq<char>, open: int, j: int, hi: int)
    ensures
        scan_bracket(cs, open, j, hi) matches BracketScan::Closed { next, .. } ==> j < next <= hi,
    decreases hi - j,
{
    if j < hi && cs[j] != ']' {
        if cs[j] == '\\' {
            if j + 1 < hi && is_escapable(cs[j + 1]) {
                lemma_scan_bracket_next(cs, open, j + 2, hi);
            }
        } else if j + 2 < hi && cs[j + 1] == '-' {
            lemma_scan_bracket_next(cs, open, j + 3, hi);
        } else {
            lemma_scan_bracket_next(cs, open, j + 1, hi);
        }
    }
}

pub open spec fn prepend_token(t: TokenSpec, r: Result<Seq<TokenSpec>, ErrorSpec>) -> Result<
    Seq<TokenSpec>,
    ErrorSpec,
> {
    match r {
        Ok(ts) => Ok(seq![t] + ts),
        Err(e) => Err(e),
    }
}

pub open spec fn join_tokens(ts: Seq<TokenSpec>, r: Result<Seq<TokenSpec>, ErrorSpec>) -> Result<
    Seq<TokenSpec>,
    ErrorSpec,
> {
    match r {
        Ok(rest) => Ok(ts + rest),
        Err(e) => Err(e),
    }
}

/// The wildcard grammar: the tokens of `cs[i..hi]`, or the first error in it.
///
/// `\c` is the literal `c` for an escapable `c`; `?` is one character; `**`
/// and `*` are the two runs; `[...]` and `[^...]` are bracket sets (never
/// empty); every other character, parentheses included, is itself.
pub open spec fn scan_tokens(cs: Seq<char>, i: int, hi: int) -> Result<Seq<TokenSpec>, ErrorSpec>
    decreases hi - i,
{
    if i >= hi {
        Ok(seq![])
    } else if cs[i] == '\\' {
        if i + 1 < hi {
            if !is_escapable(cs[i + 1]) {
                Err(escape_error(cs, i))
            } else {
                prepend_token(TokenSpec::Char(cs[i + 1]), scan_tokens(cs, i + 2, hi))
            }
        } else {
            Err(
                error_spec(
                    KindSpec::UnexpectedTrailingCharacters,
                    bo(cs, i),
                    bo(cs, i) + 1,
                    "Dangling backslash at end of pattern"@,
                ),
            )
        }
    } else if cs[i] == '?' {
        prepend_token(TokenSpec::AnyChar, scan_tokens(cs, i + 1, hi))
    } else if cs[i] == '*' {
        if i + 1 < hi && cs[i + 1] == '*' {
            prepend_token(TokenSpec::AnySeq, scan_tokens(cs, i + 2, hi))
        } else {
            prepend_token(TokenSpec::AnySeqNoSeparator, scan_tokens(cs, i + 1, hi))
        }
    } else if cs[i] == '[' {
        let negated = i + 1 < hi && cs[i + 1] == '^';
        let start = if negated {
            i + 2
        } else {
            i + 1
        };
        proof {
            lemma_scan_bracket_next(cs, i, start, hi);
        }
        match scan_bracket(cs, i, start, hi) {
            BracketScan::Failed { error } => Err(error),
            BracketScan::Closed { members, next } => {
                if members.is_empty() {
                    Err(
                        error_spec(
                            KindSpec::EmptyBrackets,
                            bo(cs, i),
                            bo(cs, next - 1) + 1,
                            "Empty brackets '[]' never match anything"@,
                        ),
                    )
                } else if negated {
                    prepend_token(TokenSpec::NegatedSet(members), scan_tokens(cs, next, hi))
                } else {
                    prepend_token(TokenSpec::CharSet(members), scan_tokens(cs, next, hi))
                }
            },
        }
    } else {
        prepend_token(TokenSpec::Char(cs[i]), scan_tokens(cs, i + 1, hi))
    }
}

/// A successful scan yields at most one token per character.
pub proof fn lemma_scan_tokens_len(cs: Seq<char>, i: int, hi: int)
    requires
        i <= hi,
    ensures
        scan_tokens(cs, i, hi) matches Ok(ts) ==> ts.len() <= hi - i,
    decreases hi - i,
{
    if i < hi {
        if cs[i] == '\\' {
            if i + 1 < hi && is_escapable(cs[i + 1]) {
                lemma_scan_tokens_len(cs, i + 2, hi);
                lemma_prepend_len(TokenSpec::Char(cs[i + 1]), scan_tokens(cs, i + 2, hi));
            }
        } else if cs[i] == '?' {
            lemma_scan_tokens_len(cs, i + 1, hi);
            lemma_prepend_len(TokenSpec::AnyChar, scan_tokens(cs, i + 1, hi));
        } else if cs[i] == '*' {
            if i + 1 < hi && cs[i + 1] == '*' {
                lemma_scan_tokens_len(cs, i + 2, hi);
                lemma_prepend_len(TokenSpec::AnySeq, scan_tokens(cs, i + 2, hi));
            } else {
                lemma_scan_tokens_len(cs, i + 1, hi);
                lemma_prepend_len(TokenSpec::AnySeqNoSeparator, scan_tokens(cs, i + 1, hi));
            }
        } else if cs[i] == '[' {
            let negated = i + 1 < hi && cs[i + 1] == '^';
            let start = if negated {
                i + 2
            } else {
                i + 1
            };
            lemma_scan_bracket_next(cs, i, start, hi);
            if let BracketScan::Closed { members, next } = scan_bracket(cs, i, start, hi) {
                lemma_scan_tokens_len(cs, next, hi);
                lemma_prepend_len(TokenSpec::CharSet(members), scan_tokens(cs, next, hi));
                lemma_prepend_len(TokenSpec::NegatedSet(members), scan_tokens(cs, next, hi));
            }
        } else {
            lemma_scan_tokens_len(cs, i + 1, hi);
            lemma_prepend_len(TokenSpec::Char(cs[i]), scan_tokens(cs, i + 1, hi));
        }
    }
}

proof fn lemma_prepend_len(t: TokenSpec, r: Result<Seq<TokenSpec>, ErrorSpec>)
    ensures
        prepend_token(t, r) matches Ok(ts) ==> r is Ok && ts.len() == r->Ok_0.len() + 1,
{
}

/// The tokens of a whole pattern, or the first error in it.
pub open spec fn spec_compile(cs: Seq<char>) -> Result<Seq<TokenSpec>, ErrorSpec> {
    scan_tokens(cs, 0, cs.len() as int)
}

pub open spec fn compile_view(r: Result<Vec<MatchToken>, ParseError>) -> Result<
    Seq<TokenSpec>,
    ErrorSpec,
> {
    match r {
        Ok(v) => Ok(tokens_view(v@)),
        Err(e) => Err(e@),
    }
}

pub fn new_error(kind: ParseErrorKind, start: usize, end: usize, message: String) -> (e: ParseError)
    ensures
        e.kind == kind,
        e.span.start == start,
        e.span.end == end,
        e.message == message,
{
    ParseError { kind, span: Range { start, end }, message }
}

/// The error for a backslash at `j` followed by a non-escapable character.
fn escape_error_exec(cs: &Vec<char>, pos: &Vec<usize>, j: usize) -> (e: ParseError)
    requires
        positions_ok(cs@, pos@),
        j + 1 < cs.len(),
    ensures
        e@ == escape_error(cs@, j as int),
{
    let c = cs[j + 1];
    proof {
        lemma_byte_offset_step(cs@, j + 1);
        crate::text::lemma_byte_offset_mono(cs@, j + 2, cs.len() as int);
        crate::text::lemma_byte_offset_full(cs@);
    }
    let message = if char_is_alphanumeric(c) || c == '.' || c == '_' {
        String::from_str(
            "Backslash is the escape character; use '/' as the path separator in flexiglob patterns",
        )
    } else {
        let mut m = String::from_str("'\\");
        push_char(&mut m, c);
        m.append("' is not a recognized escape sequence");
        m
    };
    let e = new_error(
        ParseErrorKind::InvalidEscape(c),
        pos[j],
        pos[j + 1] + crate::text::char_width(c),
        message,
    );
    assert(e.message@ =~= escape_message(c));
    e
}

/// Adds every scalar value of `lo..=hi` to `set`.
fn insert_range(set: &mut BTreeSet<u32>, lo: u32, hi: u32)
    requires
        lo <= hi <= 0x10FFFF,
    ensures
        final(set)@ == old(set)@.union(Set::new(|v: u32| lo <= v <= hi && is_scalar(v))),
{
    let ghost start = set@;
    let mut v = lo;
    while v <= hi
        invariant
            hi <= 0x10FFFF,
            lo <= v,
            v <= hi + 1,
            set@ == start.union(Set::new(|w: u32| lo <= w < v && is_scalar(w))),
        decreases hi + 1 - v,
    {
        if !(0xD800 <= v && v <= 0xDFFF) {
            set.insert(v);
        }
        assert(set@ =~= start.union(Set::new(|w: u32| lo <= w < v + 1 && is_scalar(w))));
        v = v + 1;
    }
    assert(set@ =~= start.union(Set::new(|w: u32| lo <= w <= hi && is_scalar(w))));
}

proof fn lemma_add_members_assoc(a: Set<u32>, b: Set<u32>, r: BracketScan)
    ensures
        add_members(a, add_members(b, r)) == add_members(a.union(b), r),
{
    if let BracketScan::Closed { members, next } = r {
        assert(a.union(b.union(members)) =~= a.union(b).union(members));
    }
}

proof fn lemma_join_prepend(ts: Seq<TokenSpec>, t: TokenSpec, r: Result<Seq<TokenSpec>, ErrorSpec>)
    ensures
        join_tokens(ts, prepend_token(t, r)) == join_tokens(ts.push(t), r),
{
    if let Ok(rest) = r {
        assert(ts + (seq![t] + rest) =~= ts.push(t) + rest);
    }
}

fn is_escapable_exec(c: char) -> (b: bool)
    ensures
        b == is_escapable(c),
{
    c == '*' || c == '?' || c == '[' || c == ']' || c == '(' || c == ')' || c == '"' || c == '\\'
}

/// Scans the members of the bracket set opened at `open`, from `start` on.
fn scan_bracket_exec(cs: &Vec<char>, pos: &Vec<usize>, open: usize, start: usize, hi: usize) -> (r:
    Result<(BTreeSet<u32>, usize), ParseError>)
    requires
        positions_ok(cs@, pos@),
        open < start,
        open < hi,
        hi <= cs.len(),
    ensures
        match r {
            Ok((set, next)) => scan_bracket(cs@, open as int, start as int, hi as int)
                == BracketScan::Closed { members: set@, next: next as int },
            Err(e) => scan_bracket(cs@, open as int, start as int, hi as int)
                == BracketScan::Failed { error: e@ },
        },
{
    let mut set: BTreeSet<u32> = BTreeSet::new();
    let mut j = start;
    assert(add_members(set@, scan_bracket(cs@, open as int, j as int, hi as int)) =~= scan_bracket(cs@, open as int, start as int, hi as int)) by {
        if let BracketScan::Closed { members, next } = scan_bracket(cs@, open as int, start as int, hi as int) {
            assert(Set::<u32>::empty().union(members) =~= members);
        }
    }
    while j < hi
        invariant
            positions_ok(cs@, pos@),
            open < hi,
            hi <= cs.len(),
            scan_bracket(cs@, open as int, start as int, hi as int) == add_members(
                set@,
                scan_bracket(cs@, open as int, j as int, hi as int),
            ),
        decreases hi - j,
    {
        let c = cs[j];
        if c == ']' {
            assert(set@.union(Set::<u32>::empty()) =~= set@);
            return Ok((set, j + 1));
        }
        let ghost before = set@;
        let ghost m: Set<u32>;
        let ghost jj = j as int;
        if c == '\\' {
            if hi - j > 1 {
                let nc = cs[j + 1];
                if !is_escapable_exec(nc) {
                    return Err(escape_error_exec(cs, pos, j));
                }
                set.insert(nc as u32);
                proof {
                    m = set![nc as u32];
                }
                j = j + 2;
            } else {
                return Err(
                    new_error(
                        ParseErrorKind::UnterminatedBracketSet,
                        pos[open],
                        pos[hi],
                        String::from_str("Dangling backslash inside bracket set"),
                    ),
                );
            }
        } else if hi - j > 2 && cs[j + 1] == '-' {
            let lo_c = c;
            let hi_c = cs[j + 2];
            proof {
                char_is_scalar(hi_c);
                m = range_members(lo_c, hi_c);
            }
            if (lo_c as u32) <= (hi_c as u32) {
                insert_range(&mut set, lo_c as u32, hi_c as u32);
            } else {
                set.insert(lo_c as u32);
                set.insert('-' as u32);
                set.insert(hi_c as u32);
            }
            j = j + 3;
        } else {
            set.insert(c as u32);
            proof {
                m = set![c as u32];
            }
            j = j + 1;
        }
        proof {
            assert(set@ =~= before.union(m));
            assert(scan_bracket(cs@, open as int, jj, hi as int) == add_members(m, scan_bracket(cs@, open as int, j as int, hi as int)));
            lemma_add_members_assoc(before, m, scan_bracket(cs@, open as int, j as int, hi as int));
        }
    }
    Err(
        new_error(
            ParseErrorKind::UnterminatedBracketSet,
            pos[open],
            pos[hi],
            String::from_str("Unterminated bracket set"),
        ),
    )
}

/// The token that starts at `i`, and where the next one starts.
fn next_token(cs: &Vec<char>, pos: &Vec<usize>, i: usize, hi: usize) -> (r: Result<
    (MatchToken, usize),
    ParseError,
>)
    requires
        positions_ok(cs@, pos@),
        i < hi <= cs.len(),
    ensures
        match r {
            Ok((t, next)) => i < next <= hi && scan_tokens(cs@, i as int, hi as int)
                == prepend_token(t@, scan_tokens(cs@, next as int, hi as int)),
            Err(e) => scan_tokens(cs@, i as int, hi as int) == Err::<Seq<TokenSpec>, ErrorSpec>(
                e@,
            ),
        },
{
    let c = cs[i];
    if c == '\\' {
        if hi - i > 1 {
            let nc = cs[i + 1];
            if !is_escapable_exec(nc) {
                return Err(escape_error_exec(cs, pos, i));
            }
            Ok((MatchToken::Char(nc), i + 2))
        } else {
            proof {
                lemma_byte_offset_step(cs@, i as int);
                crate::text::lemma_byte_offset_mono(cs@, i + 1, cs.len() as int);
                crate::text::lemma_byte_offset_full(cs@);
            }
            Err(
                new_error(
                    ParseErrorKind::UnexpectedTrailingCharacters,
                    pos[i],
                    pos[i] + 1,
                    String::from_str("Dangling backslash at end of pattern"),
                ),
            )
        }
    } else if c == '?' {
        Ok((MatchToken::AnyChar, i + 1))
    } else if c == '*' {
        if hi - i > 1 && cs[i + 1] == '*' {
            Ok((MatchToken::AnySeq, i + 2))
        } else {
            Ok((MatchToken::AnySeqNoSeparator, i + 1))
        }
    } else if c == '[' {
        let negated = hi - i > 1 && cs[i + 1] == '^';
        let start = if negated {
            i + 2
        } else {
            i + 1
        };
        proof {
            lemma_scan_bracket_next(cs@, i as int, start as int, hi as int);
        }
        match scan_bracket_exec(cs, pos, i, start, hi) {
            Err(e) => Err(e),
            Ok((set, next)) => {
                if set.is_empty() {
                    proof {
                        lemma_byte_offset_step(cs@, next - 1);
                        crate::text::lemma_byte_offset_mono(cs@, next as int, cs.len() as int);
                        crate::text::lemma_byte_offset_full(cs@);
                    }
                    return Err(
                        new_error(
                            ParseErrorKind::EmptyBrackets,
                            pos[i],
                            pos[next - 1] + 1,
                            String::from_str("Empty brackets '[]' never match anything"),
                        ),
                    );
                }
                if negated {
                    Ok((MatchToken::NegatedSet(set), next))
                } else {
                    Ok((MatchToken::CharSet(set), next))
                }
            },
        }
    } else {
        Ok((MatchToken::Char(c), i + 1))
    }
}

/// Compiles the window `cs[lo..hi]`.
pub fn compile_window(cs: &Vec<char>, pos: &Vec<usize>, lo: usize, hi: usize) -> (r: Result<
    Vec<MatchToken>,
    ParseError,
>)
    requires
        positions_ok(cs@, pos@),
        lo <= hi <= cs.len(),
    ensures
        compile_view(r) == scan_tokens(cs@, lo as int, hi as int),
{
    let mut tokens: Vec<MatchToken> = Vec::new();
    let mut i = lo;
    assert(join_tokens(tokens_view(tokens@), scan_tokens(cs@, lo as int, hi as int)) =~= scan_tokens(cs@, lo as int, hi as int)) by {
        if let Ok(rest) = scan_tokens(cs@, lo as int, hi as int) {
            assert(tokens_view(tokens@) + rest =~= rest);
        }
    }
    while i < hi
        invariant
            positions_ok(cs@, pos@),
            i <= hi <= cs.len(),
            scan_tokens(cs@, lo as int, hi as int) == join_tokens(
                tokens_view(tokens@),
                scan_tokens(cs@, i as int, hi as int),
            ),
        decreases hi - i,
    {
        match next_token(cs, pos, i, hi) {
            Err(e) => {
                return Err(e);
            },
            Ok((t, next)) => {
                let ghost before = tokens_view(tokens@);
                let ghost tv = t@;
                tokens.push(t);
                proof {
                    assert(tokens_view(tokens@) =~= before.push(tv));
                    lemma_join_prepend(before, tv, scan_tokens(cs@, next as int, hi as int));
                }
                i = next;
            },
        }
    }
    assert(tokens_view(tokens@) + Seq::<TokenSpec>::empty() =~= tokens_view(tokens@));
    Ok(tokens)
}

/// Compiles a raw wildcard pattern string into compiled match tokens.
pub fn compile_pattern(pattern: &str) -> (r: Result<Vec<MatchToken>, ParseError>)
    ensures
        compile_view(r) == spec_compile(pattern@),
{
    let (cs, pos) = chars_and_positions(pattern);
    compile_window(&cs, &pos, 0, cs.len())
}

} // verus!
