// Where a pattern stands in its input does not change how it parses: a
// pattern behind a prefix parses to the same tree, and its errors move by
// the prefix's length in bytes.  Leading whitespace is such a prefix.

use crate::compile::{
    bo, spec_compile, escape_error, is_escapable, lemma_scan_bracket_next, prepend_token, scan_bracket,
    scan_tokens, BracketScan,
};
use crate::error::ErrorSpec;
use crate::parser::{
    find_close, first_index_of, lemma_op_syntax_bounds, lemma_trim_hi, lemma_trim_lo, op_syntax,
    spec_parse, valid_ident, OpSyntax, PatternSpec,
};
use crate::text::{byte_len, is_ws, lemma_byte_len_append, trim_hi, trim_lo};
use crate::token::TokenSpec;
use vstd::prelude::*;

verus! {

/// `e` with its byte span moved by `d`.
pub open spec fn shift_error(e: ErrorSpec, d: int) -> ErrorSpec {
    ErrorSpec { kind: e.kind, start: e.start + d, end: e.end + d, message: e.message }
}

/// A parse outcome whose error span, if any, is moved by `d`.
pub open spec fn shift_parse(r: Result<PatternSpec, ErrorSpec>, d: int) -> Result<
    PatternSpec,
    ErrorSpec,
> {
    match r {
        Ok(p) => Ok(p),
        Err(e) => Err(shift_error(e, d)),
    }
}

/// A scan outcome whose error span, if any, is moved by `d`.
pub open spec fn shift_scan(r: Result<Seq<TokenSpec>, ErrorSpec>, d: int) -> Result<
    Seq<TokenSpec>,
    ErrorSpec,
> {
    match r {
        Ok(ts) => Ok(ts),
        Err(e) => Err(shift_error(e, d)),
    }
}

/// A bracket scan moved by `m` characters and `d` bytes.
pub open spec fn shift_bracket(r: BracketScan, m: int, d: int) -> BracketScan {
    match r {
        BracketScan::Closed { members, next } => BracketScan::Closed { members, next: next + m },
        BracketScan::Failed { error } => BracketScan::Failed { error: shift_error(error, d) },
    }
}

/// An operator reading moved by `m` characters and `d` bytes.
pub open spec fn shift_op(r: OpSyntax, m: int, d: int) -> OpSyntax {
    match r {
        OpSyntax::NotOperator => OpSyntax::NotOperator,
        OpSyntax::Failed { error } => OpSyntax::Failed { error: shift_error(error, d) },
        OpSyntax::Operator { name_end, open, close } => OpSyntax::Operator {
            name_end: name_end + m,
            open: open + m,
            close: close + m,
        },
    }
}

proof fn lemma_bo_shift(pre: Seq<char>, cs: Seq<char>, i: int)
    requires
        0 <= i <= cs.len(),
    ensures
        bo(pre + cs, pre.len() + i) == byte_len(pre) + bo(cs, i),
{
    assert((pre + cs).take(pre.len() + i) =~= pre + cs.take(i));
    lemma_byte_len_append(pre, cs.take(i));
}

proof fn lemma_trim_lo_shift(pre: Seq<char>, cs: Seq<char>, lo: int, hi: int)
    requires
        0 <= lo <= hi <= cs.len(),
    ensures
        trim_lo(pre + cs, pre.len() + lo, pre.len() + hi) == pre.len() + trim_lo(cs, lo, hi),
    decreases hi - lo,
{
    if lo < hi {
        assert((pre + cs)[pre.len() + lo] == cs[lo]);
        lemma_trim_lo_shift(pre, cs, lo + 1, hi);
    }
}

proof fn lemma_trim_hi_shift(pre: Seq<char>, cs: Seq<char>, lo: int, hi: int)
    requires
        0 <= lo <= hi <= cs.len(),
    ensures
        trim_hi(pre + cs, pre.len() + lo, pre.len() + hi) == pre.len() + trim_hi(cs, lo, hi),
    decreases hi - lo,
{
    if lo < hi {
        assert((pre + cs)[pre.len() + hi - 1] == cs[hi - 1]);
        lemma_trim_hi_shift(pre, cs, lo, hi - 1);
    }
}

proof fn lemma_first_index_of_shift(pre: Seq<char>, cs: Seq<char>, c: char, i: int, hi: int)
    requires
        0 <= i <= hi <= cs.len(),
    ensures
        first_index_of(pre + cs, c, pre.len() + i, pre.len() + hi) == pre.len() + first_index_of(
            cs,
            c,
            i,
            hi,
        ),
    decreases hi - i,
{
    if i < hi {
        assert((pre + cs)[pre.len() + i] == cs[i]);
        lemma_first_index_of_shift(pre, cs, c, i + 1, hi);
    }
}

proof fn lemma_find_close_shift(pre: Seq<char>, cs: Seq<char>, k: int, depth: int, hi: int)
    requires
        0 <= k <= hi <= cs.len(),
    ensures
        find_close(pre + cs, pre.len() + k, depth, pre.len() + hi) == pre.len() + find_close(
            cs,
            k,
            depth,
            hi,
        ),
    decreases hi - k,
{
    if k < hi {
        assert((pre + cs)[pre.len() + k] == cs[k]);
        lemma_find_close_shift(pre, cs, k + 1, depth + 1, hi);
        lemma_find_close_shift(pre, cs, k + 1, depth - 1, hi);
        lemma_find_close_shift(pre, cs, k + 1, depth, hi);
    }
}

proof fn lemma_valid_ident_shift(pre: Seq<char>, cs: Seq<char>, lo: int, hi: int)
    requires
        0 <= lo <= hi <= cs.len(),
    ensures
        valid_ident(pre + cs, pre.len() + lo, pre.len() + hi) == valid_ident(cs, lo, hi),
{
    let p = pre + cs;
    let m = pre.len() as int;
    if lo < hi {
        assert(p[m + lo] == cs[lo]);
    }
    if valid_ident(cs, lo, hi) {
        assert forall|k: int| m + lo < k < m + hi implies crate::text::is_alphanumeric_char(
            #[trigger] p[k],
        ) || p[k] == '_' by {
            assert(p[k] == cs[k - m]);
        }
    }
    if valid_ident(p, m + lo, m + hi) {
        assert forall|k: int| lo < k < hi implies crate::text::is_alphanumeric_char(
            #[trigger] cs[k],
        ) || cs[k] == '_' by {
            assert(p[m + k] == cs[k]);
        }
    }
}

proof fn lemma_escape_error_shift(pre: Seq<char>, cs: Seq<char>, j: int)
    requires
        0 <= j,
        j + 1 < cs.len(),
    ensures
        escape_error(pre + cs, pre.len() + j) == shift_error(escape_error(cs, j), byte_len(pre) as int),
{
    assert((pre + cs)[pre.len() + j + 1] == cs[j + 1]);
    lemma_bo_shift(pre, cs, j);
    lemma_bo_shift(pre, cs, j + 1);
}

proof fn lemma_bracket_shift(pre: Seq<char>, cs: Seq<char>, open: int, j: int, hi: int)
    requires
        0 <= open < j <= hi <= cs.len(),
    ensures
        scan_bracket(pre + cs, pre.len() + open, pre.len() + j, pre.len() + hi) == shift_bracket(
            scan_bracket(cs, open, j, hi),
            pre.len() as int,
            byte_len(pre) as int,
        ),
    decreases hi - j,
{
    let p = pre + cs;
    let m = pre.len() as int;
    lemma_bo_shift(pre, cs, open);
    lemma_bo_shift(pre, cs, hi);
    if j < hi {
        assert(p[m + j] == cs[j]);
        if j + 1 < hi {
            assert(p[m + j + 1] == cs[j + 1]);
        }
        if j + 2 < hi {
            assert(p[m + j + 2] == cs[j + 2]);
        }
        if cs[j] == ']' {
        } else if cs[j] == '\\' {
            if j + 1 < hi {
                if !is_escapable(cs[j + 1]) {
                    lemma_escape_error_shift(pre, cs, j);
                } else {
                    lemma_bracket_shift(pre, cs, open, j + 2, hi);
                }
            }
        } else if j + 2 < hi && cs[j + 1] == '-' {
            lemma_bracket_shift(pre, cs, open, j + 3, hi);
        } else {
            lemma_bracket_shift(pre, cs, open, j + 1, hi);
        }
    }
}

proof fn lemma_prepend_shift(t: TokenSpec, r: Result<Seq<TokenSpec>, ErrorSpec>, d: int)
    ensures
        prepend_token(t, shift_scan(r, d)) == shift_scan(prepend_token(t, r), d),
{
}

/// A wildcard behind a prefix scans to the same tokens; its errors move by
/// the prefix's length in bytes.
pub proof fn lemma_scan_shift(pre: Seq<char>, cs: Seq<char>, i: int, hi: int)
    requires
        0 <= i <= hi <= cs.len(),
    ensures
        scan_tokens(pre + cs, pre.len() + i, pre.len() + hi) == shift_scan(
            scan_tokens(cs, i, hi),
            byte_len(pre) as int,
        ),
    decreases hi - i,
{
    let p = pre + cs;
    let m = pre.len() as int;
    let d = byte_len(pre) as int;
    if i < hi {
        assert(p[m + i] == cs[i]);
        if i + 1 < hi {
            assert(p[m + i + 1] == cs[i + 1]);
        }
        lemma_bo_shift(pre, cs, i);
        if cs[i] == '\\' {
            if i + 1 < hi {
                if !is_escapable(cs[i + 1]) {
                    lemma_escape_error_shift(pre, cs, i);
                } else {
                    lemma_scan_shift(pre, cs, i + 2, hi);
                    lemma_prepend_shift(TokenSpec::Char(cs[i + 1]), scan_tokens(cs, i + 2, hi), d);
                }
            }
        } else if cs[i] == '?' {
            lemma_scan_shift(pre, cs, i + 1, hi);
            lemma_prepend_shift(TokenSpec::AnyChar, scan_tokens(cs, i + 1, hi), d);
        } else if cs[i] == '*' {
            if i + 1 < hi && cs[i + 1] == '*' {
                lemma_scan_shift(pre, cs, i + 2, hi);
                lemma_prepend_shift(TokenSpec::AnySeq, scan_tokens(cs, i + 2, hi), d);
            } else {
                lemma_scan_shift(pre, cs, i + 1, hi);
                lemma_prepend_shift(TokenSpec::AnySeqNoSeparator, scan_tokens(cs, i + 1, hi), d);
            }
        } else if cs[i] == '[' {
            let negated = i + 1 < hi && cs[i + 1] == '^';
            let start = if negated {
                i + 2
            } else {
                i + 1
            };
            lemma_bracket_shift(pre, cs, i, start, hi);
            lemma_scan_bracket_next(cs, i, start, hi);
            if let BracketScan::Closed { members, next } = scan_bracket(cs, i, start, hi) {
                lemma_bo_shift(pre, cs, next - 1);
                lemma_scan_shift(pre, cs, next, hi);
                lemma_prepend_shift(TokenSpec::NegatedSet(members), scan_tokens(cs, next, hi), d);
                lemma_prepend_shift(TokenSpec::CharSet(members), scan_tokens(cs, next, hi), d);
            }
        } else {
            lemma_scan_shift(pre, cs, i + 1, hi);
            lemma_prepend_shift(TokenSpec::Char(cs[i]), scan_tokens(cs, i + 1, hi), d);
        }
    }
}

proof fn lemma_op_syntax_shift(pre: Seq<char>, cs: Seq<char>, tl: int, th: int)
    requires
        0 <= tl <= th <= cs.len(),
    ensures
        op_syntax(pre + cs, pre.len() + tl, pre.len() + th) == shift_op(
            op_syntax(cs, tl, th),
            pre.len() as int,
            byte_len(pre) as int,
        ),
{
    let p = pre + cs;
    let m = pre.len() as int;
    lemma_first_index_of_shift(pre, cs, '(', tl, th);
    crate::parser::lemma_first_index_of(cs, '(', tl, th);
    let open = first_index_of(cs, '(', tl, th);
    lemma_trim_hi_shift(pre, cs, tl, open);
    lemma_trim_hi(cs, tl, open);
    let name_end = trim_hi(cs, tl, open);
    lemma_valid_ident_shift(pre, cs, tl, name_end);
    if open < th {
        lemma_find_close_shift(pre, cs, open, 0, th);
        assert(find_close(cs, open, 0, th) == find_close(cs, open + 1, 1, th));
        crate::parser::lemma_find_close(cs, open + 1, 1, th);
        let close = find_close(cs, open, 0, th);
        lemma_bo_shift(pre, cs, open);
        if close < th {
            lemma_bo_shift(pre, cs, close + 1);
            lemma_bo_shift(pre, cs, th);
            assert(p.subrange(m + close + 1, m + th) =~= cs.subrange(close + 1, th));
        }
    }
}

/// A pattern behind a prefix parses to the same tree; its errors move by the
/// prefix's length in bytes.
pub proof fn lemma_parse_shift(
    pre: Seq<char>,
    cs: Seq<char>,
    lo: int,
    hi: int,
    valid: spec_fn(Seq<char>) -> bool,
)
    requires
        0 <= lo <= hi <= cs.len(),
    ensures
        spec_parse(pre + cs, pre.len() + lo, pre.len() + hi, valid) == shift_parse(
            spec_parse(cs, lo, hi, valid),
            byte_len(pre) as int,
        ),
    decreases hi - lo,
{
    let p = pre + cs;
    let m = pre.len() as int;
    let tl = trim_lo(cs, lo, hi);
    lemma_trim_lo(cs, lo, hi);
    lemma_trim_lo_shift(pre, cs, lo, hi);
    let th = trim_hi(cs, tl, hi);
    lemma_trim_hi(cs, tl, hi);
    lemma_trim_hi_shift(pre, cs, tl, hi);
    lemma_bo_shift(pre, cs, tl);
    if tl < th {
        lemma_op_syntax_shift(pre, cs, tl, th);
        lemma_op_syntax_bounds(cs, tl, th);
        match op_syntax(cs, tl, th) {
            OpSyntax::Operator { name_end, open, close } => {
                assert(p.subrange(m + tl, m + name_end) =~= cs.subrange(tl, name_end));
                lemma_bo_shift(pre, cs, name_end);
                lemma_parse_shift(pre, cs, open + 1, close, valid);
            },
            OpSyntax::NotOperator => {
                assert(p.subrange(m + tl, m + th) =~= cs.subrange(tl, th));
                lemma_scan_shift(pre, cs, tl, th);
            },
            _ => {},
        }
    }
}

proof fn lemma_trim_lo_skips_ws(cs: Seq<char>, lo: int, m: int, hi: int)
    requires
        0 <= lo <= m <= hi <= cs.len(),
        forall|k: int| lo <= k < m ==> is_ws(#[trigger] cs[k]),
    ensures
        trim_lo(cs, lo, hi) == trim_lo(cs, m, hi),
    decreases m - lo,
{
    if lo < m {
        lemma_trim_lo_skips_ws(cs, lo + 1, m, hi);
    }
}

/// Leading whitespace does not change how a pattern parses: the tree is the
/// same, and every error span moves by the whitespace's length in bytes.
pub proof fn lemma_leading_whitespace_shifts_spans(
    ws: Seq<char>,
    cs: Seq<char>,
    valid: spec_fn(Seq<char>) -> bool,
)
    requires
        forall|k: int| 0 <= k < ws.len() ==> is_ws(#[trigger] ws[k]),
    ensures
        spec_parse(ws + cs, 0, (ws + cs).len() as int, valid) == shift_parse(
            spec_parse(cs, 0, cs.len() as int, valid),
            byte_len(ws) as int,
        ),
{
    let p = ws + cs;
    let m = ws.len() as int;
    let n = p.len() as int;
    assert forall|k: int| 0 <= k < m implies is_ws(#[trigger] p[k]) by {
        assert(p[k] == ws[k]);
    }
    lemma_trim_lo_skips_ws(p, 0, m, n);
    lemma_parse_shift(ws, cs, 0, cs.len() as int, valid);
    assert(spec_parse(p, 0, n, valid) == spec_parse(p, m, n, valid));
}

proof fn lemma_bo_truncate(cs: Seq<char>, i: int, hi: int)
    requires
        0 <= i <= hi <= cs.len(),
    ensures
        bo(cs.take(hi), i) == bo(cs, i),
{
    assert(cs.take(hi).take(i) =~= cs.take(i));
}

proof fn lemma_bracket_truncate(cs: Seq<char>, open: int, j: int, hi: int)
    requires
        0 <= open < j <= hi <= cs.len(),
    ensures
        scan_bracket(cs.take(hi), open, j, hi) == scan_bracket(cs, open, j, hi),
    decreases hi - j,
{
    let t = cs.take(hi);
    lemma_bo_truncate(cs, open, hi);
    lemma_bo_truncate(cs, hi, hi);
    if j < hi {
        assert(t[j] == cs[j]);
        if j + 1 < hi {
            assert(t[j + 1] == cs[j + 1]);
            lemma_bo_truncate(cs, j, hi);
            lemma_bo_truncate(cs, j + 1, hi);
        }
        if j + 2 < hi {
            assert(t[j + 2] == cs[j + 2]);
        }
        lemma_bracket_truncate(cs, open, j + 1, hi);
        if j + 2 <= hi {
            lemma_bracket_truncate(cs, open, j + 2, hi);
        }
        if j + 3 <= hi {
            lemma_bracket_truncate(cs, open, j + 3, hi);
        }
    }
}

/// Scanning `cs[i..hi]` reads nothing past `hi`.
proof fn lemma_scan_truncate(cs: Seq<char>, i: int, hi: int)
    requires
        0 <= i <= hi <= cs.len(),
    ensures
        scan_tokens(cs.take(hi), i, hi) == scan_tokens(cs, i, hi),
    decreases hi - i,
{
    let t = cs.take(hi);
    if i < hi {
        assert(t[i] == cs[i]);
        lemma_bo_truncate(cs, i, hi);
        if i + 1 < hi {
            assert(t[i + 1] == cs[i + 1]);
            lemma_bo_truncate(cs, i + 1, hi);
        }
        lemma_scan_truncate(cs, i + 1, hi);
        if i + 2 <= hi {
            lemma_scan_truncate(cs, i + 2, hi);
        }
        if cs[i] == '[' {
            let negated = i + 1 < hi && cs[i + 1] == '^';
            let start = if negated {
                i + 2
            } else {
                i + 1
            };
            lemma_bracket_truncate(cs, i, start, hi);
            lemma_scan_bracket_next(cs, i, start, hi);
            if let BracketScan::Closed { members, next } = scan_bracket(cs, i, start, hi) {
                lemma_bo_truncate(cs, next - 1, hi);
                lemma_scan_truncate(cs, next, hi);
            }
        }
    }
}

/// A pattern with no `(` in it parses as its trimmed text compiles: to that
/// text and its tokens, or to the compile error with its span moved by the
/// length in bytes of the leading whitespace.
pub proof fn lemma_paren_free_parse_is_compile(cs: Seq<char>, valid: spec_fn(Seq<char>) -> bool)
    requires
        !cs.contains('('),
        trim_lo(cs, 0, cs.len() as int) < trim_hi(cs, trim_lo(cs, 0, cs.len() as int), cs.len() as int),
    ensures
        ({
            let tl = trim_lo(cs, 0, cs.len() as int);
            let t = cs.subrange(tl, trim_hi(cs, tl, cs.len() as int));
            spec_parse(cs, 0, cs.len() as int, valid) == match spec_compile(t) {
                Ok(ts) => Ok::<PatternSpec, ErrorSpec>(PatternSpec::Leaf { pattern: t, tokens: ts }),
                Err(e) => Err(shift_error(e, bo(cs, tl))),
            }
        }),
{
    let n = cs.len() as int;
    let tl = trim_lo(cs, 0, n);
    let th = trim_hi(cs, tl, n);
    lemma_trim_lo(cs, 0, n);
    lemma_trim_hi(cs, tl, n);
    let t = cs.subrange(tl, th);
    crate::parser::lemma_first_index_of(cs, '(', tl, th);
    let open = first_index_of(cs, '(', tl, th);
    if open < th {
        assert(cs[open] == '(');
        assert(cs.contains('('));
    }
    assert(op_syntax(cs, tl, th) == OpSyntax::NotOperator);
    let pre = cs.take(tl);
    let rest = cs.skip(tl);
    assert(pre + rest =~= cs);
    lemma_scan_shift(pre, rest, 0, th - tl);
    lemma_scan_truncate(rest, 0, th - tl);
    assert(rest.take(th - tl) =~= t);
    assert(bo(cs, tl) == byte_len(pre));
}

proof fn lemma_trim_lo_truncate(cs: Seq<char>, lo: int, hi: int, h: int)
    requires
        0 <= lo <= hi <= h <= cs.len(),
    ensures
        trim_lo(cs.take(h), lo, hi) == trim_lo(cs, lo, hi),
    decreases hi - lo,
{
    if lo < hi {
        assert(cs.take(h)[lo] == cs[lo]);
        lemma_trim_lo_truncate(cs, lo + 1, hi, h);
    }
}

proof fn lemma_trim_hi_truncate(cs: Seq<char>, lo: int, hi: int, h: int)
    requires
        0 <= lo <= hi <= h <= cs.len(),
    ensures
        trim_hi(cs.take(h), lo, hi) == trim_hi(cs, lo, hi),
    decreases hi - lo,
{
    if lo < hi {
        assert(cs.take(h)[hi - 1] == cs[hi - 1]);
        lemma_trim_hi_truncate(cs, lo, hi - 1, h);
    }
}

proof fn lemma_first_index_of_truncate(cs: Seq<char>, c: char, i: int, hi: int, h: int)
    requires
        0 <= i <= hi <= h <= cs.len(),
    ensures
        first_index_of(cs.take(h), c, i, hi) == first_index_of(cs, c, i, hi),
    decreases hi - i,
{
    if i < hi {
        assert(cs.take(h)[i] == cs[i]);
        lemma_first_index_of_truncate(cs, c, i + 1, hi, h);
    }
}

proof fn lemma_find_close_truncate(cs: Seq<char>, k: int, depth: int, hi: int, h: int)
    requires
        0 <= k <= hi <= h <= cs.len(),
    ensures
        find_close(cs.take(h), k, depth, hi) == find_close(cs, k, depth, hi),
    decreases hi - k,
{
    if k < hi {
        assert(cs.take(h)[k] == cs[k]);
        lemma_find_close_truncate(cs, k + 1, depth + 1, hi, h);
        lemma_find_close_truncate(cs, k + 1, depth - 1, hi, h);
        lemma_find_close_truncate(cs, k + 1, depth, hi, h);
    }
}

proof fn lemma_valid_ident_truncate(cs: Seq<char>, lo: int, hi: int, h: int)
    requires
        0 <= lo <= hi <= h <= cs.len(),
    ensures
        valid_ident(cs.take(h), lo, hi) == valid_ident(cs, lo, hi),
{
    let t = cs.take(h);
    if lo < hi {
        assert(t[lo] == cs[lo]);
    }
    if valid_ident(cs, lo, hi) {
        assert forall|k: int| lo < k < hi implies crate::text::is_alphanumeric_char(
            #[trigger] t[k],
        ) || t[k] == '_' by {
            assert(t[k] == cs[k]);
        }
    }
    if valid_ident(t, lo, hi) {
        assert forall|k: int| lo < k < hi implies crate::text::is_alphanumeric_char(
            #[trigger] cs[k],
        ) || cs[k] == '_' by {
            assert(t[k] == cs[k]);
        }
    }
}

proof fn lemma_op_syntax_truncate(cs: Seq<char>, tl: int, th: int, h: int)
    requires
        0 <= tl <= th <= h <= cs.len(),
    ensures
        op_syntax(cs.take(h), tl, th) == op_syntax(cs, tl, th),
{
    let t = cs.take(h);
    lemma_first_index_of_truncate(cs, '(', tl, th, h);
    crate::parser::lemma_first_index_of(cs, '(', tl, th);
    let open = first_index_of(cs, '(', tl, th);
    lemma_trim_hi_truncate(cs, tl, open, h);
    lemma_trim_hi(cs, tl, open);
    lemma_valid_ident_truncate(cs, tl, trim_hi(cs, tl, open), h);
    if open < th {
        lemma_find_close_truncate(cs, open, 0, th, h);
        lemma_bo_truncate(cs, open, h);
        assert(find_close(cs, open, 0, th) == find_close(cs, open + 1, 1, th));
        crate::parser::lemma_find_close(cs, open + 1, 1, th);
        let close = find_close(cs, open, 0, th);
        if close < th {
            lemma_bo_truncate(cs, close + 1, h);
            lemma_bo_truncate(cs, th, h);
            assert(t.subrange(close + 1, th) =~= cs.subrange(close + 1, th));
        }
    }
}

/// Parsing a window reads nothing past its end.
proof fn lemma_parse_truncate(
    cs: Seq<char>,
    lo: int,
    hi: int,
    h: int,
    valid: spec_fn(Seq<char>) -> bool,
)
    requires
        0 <= lo <= hi <= h <= cs.len(),
    ensures
        spec_parse(cs.take(h), lo, hi, valid) == spec_parse(cs, lo, hi, valid),
    decreases hi - lo,
{
    let t = cs.take(h);
    lemma_trim_lo_truncate(cs, lo, hi, h);
    lemma_trim_lo(cs, lo, hi);
    let tl = trim_lo(cs, lo, hi);
    lemma_trim_hi_truncate(cs, tl, hi, h);
    lemma_trim_hi(cs, tl, hi);
    let th = trim_hi(cs, tl, hi);
    lemma_bo_truncate(cs, tl, h);
    if tl < th {
        lemma_op_syntax_truncate(cs, tl, th, h);
        lemma_op_syntax_bounds(cs, tl, th);
        match op_syntax(cs, tl, th) {
            OpSyntax::Operator { name_end, open, close } => {
                assert(t.subrange(tl, name_end) =~= cs.subrange(tl, name_end));
                lemma_bo_truncate(cs, name_end, h);
                lemma_parse_truncate(cs, open + 1, close, h, valid);
            },
            OpSyntax::NotOperator => {
                assert(t.subrange(tl, th) =~= cs.subrange(tl, th));
                lemma_scan_truncate_to(cs, tl, th, h);
            },
            _ => {},
        }
    }
}

proof fn lemma_scan_truncate_to(cs: Seq<char>, i: int, hi: int, h: int)
    requires
        0 <= i <= hi <= h <= cs.len(),
    ensures
        scan_tokens(cs.take(h), i, hi) == scan_tokens(cs, i, hi),
{
    lemma_scan_truncate(cs, i, hi);
    lemma_scan_truncate(cs.take(h), i, hi);
    assert(cs.take(h).take(hi) =~= cs.take(hi));
}

/// Parsing the window `cs[lo..hi]` is parsing its text on its own, with
/// error spans moved by the bytes before the window.
pub proof fn lemma_parse_window(cs: Seq<char>, lo: int, hi: int, valid: spec_fn(Seq<char>) -> bool)
    requires
        0 <= lo <= hi <= cs.len(),
    ensures
        spec_parse(cs, lo, hi, valid) == shift_parse(
            spec_parse(cs.subrange(lo, hi), 0, hi - lo, valid),
            bo(cs, lo),
        ),
{
    let pre = cs.take(lo);
    let rest = cs.skip(lo);
    assert(pre + rest =~= cs);
    lemma_parse_shift(pre, rest, 0, hi - lo, valid);
    lemma_parse_truncate(rest, 0, hi - lo, hi - lo, valid);
    assert(rest.take(hi - lo) =~= cs.subrange(lo, hi));
    assert(bo(cs, lo) == byte_len(pre));
}

proof fn lemma_trim_lo_extend(cs: Seq<char>, lo: int, hi: int, h: int)
    requires
        0 <= lo <= hi <= h <= cs.len(),
        trim_lo(cs, lo, hi) < hi,
    ensures
        trim_lo(cs, lo, h) == trim_lo(cs, lo, hi),
    decreases hi - lo,
{
    if is_ws(cs[lo]) {
        lemma_trim_lo_extend(cs, lo + 1, hi, h);
    }
}

/// The characters of the Unicode `White_Space` property, named one by one:
/// tab, line feed, vertical tab, form feed, carriage return, space, next
/// line, no-break space, ogham space mark, the spaces U+2000 to U+200A, line
/// separator, paragraph separator, narrow no-break space, medium
/// mathematical space and ideographic space.
pub open spec fn unicode_white_space(c: char) -> bool {
    c == '\t' || c == '\n' || c == '\u{0B}' || c == '\u{0C}' || c == '\r' || c == ' ' || c
        == '\u{85}' || c == '\u{A0}' || c == '\u{1680}' || c == '\u{2000}' || c == '\u{2001}' || c
        == '\u{2002}' || c == '\u{2003}' || c == '\u{2004}' || c == '\u{2005}' || c == '\u{2006}'
        || c == '\u{2007}' || c == '\u{2008}' || c == '\u{2009}' || c == '\u{200A}' || c
        == '\u{2028}' || c == '\u{2029}' || c == '\u{202F}' || c == '\u{205F}' || c == '\u{3000}'
}

/// A pattern followed by a whitespace character (a newline, carriage
/// return, vertical tab, form feed, space, tab or any other Unicode
/// whitespace) parses exactly as the pattern alone, when the pattern is not
/// blank (so a pattern line read with its line ending is the same pattern).
pub proof fn lemma_trailing_whitespace_ignored(cs: Seq<char>, c: char, valid: spec_fn(Seq<char>) -> bool)
    requires
        unicode_white_space(c),
        exists|i: int| 0 <= i < cs.len() && !is_ws(#[trigger] cs[i]),
    ensures
        spec_parse(cs.push(c), 0, cs.len() + 1 as int, valid) == spec_parse(cs, 0, cs.len() as int, valid),
{
    let n = cs.len() as int;
    let p = cs.push(c);
    assert(p.take(n) =~= cs);
    assert(is_ws(c));
    let i = choose|i: int| 0 <= i < cs.len() && !is_ws(#[trigger] cs[i]);
    lemma_trim_lo_stops(cs, 0, i, n);
    lemma_trim_lo_truncate(p, 0, n, n);
    lemma_trim_lo(cs, 0, n);
    let tl = trim_lo(cs, 0, n);
    lemma_trim_lo_extend(p, 0, n, n + 1);
    assert(p[n] == c);
    assert(trim_hi(p, tl, n + 1) == trim_hi(p, tl, n));
    lemma_trim_hi_truncate(p, tl, n, n);
    assert(spec_parse(p, 0, n + 1, valid) == spec_parse(p, 0, n, valid));
    lemma_parse_truncate(p, 0, n, n, valid);
}

proof fn lemma_trim_lo_stops(cs: Seq<char>, lo: int, i: int, hi: int)
    requires
        0 <= lo <= i < hi <= cs.len(),
        !is_ws(cs[i]),
    ensures
        trim_lo(cs, lo, hi) <= i,
    decreases i - lo,
{
    if lo < i && is_ws(cs[lo]) {
        lemma_trim_lo_stops(cs, lo + 1, i, hi);
    }
}

/// A whitespace character before a pattern only moves its error spans, by
/// the character's length in bytes.
pub proof fn lemma_leading_white_space_char(c: char, cs: Seq<char>, valid: spec_fn(Seq<char>) -> bool)
    requires
        unicode_white_space(c),
    ensures
        spec_parse(seq![c] + cs, 0, cs.len() + 1 as int, valid) == shift_parse(
            spec_parse(cs, 0, cs.len() as int, valid),
            crate::text::utf8_width(c) as int,
        ),
{
    assert(is_ws(c));
    assert(seq![c][0] == c);
    lemma_leading_whitespace_shifts_spans(seq![c], cs, valid);
    assert(seq![c].drop_first() =~= Seq::<char>::empty());
    assert(byte_len(Seq::<char>::empty()) == 0);
}

} // verus!
