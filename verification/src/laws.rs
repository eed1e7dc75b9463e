// Properties of the wildcard language, the pattern grammar and the built-in
// operators, as the README describes them.

use crate::compile::{bo, escape_error, is_escapable, scan_bracket, scan_tokens, spec_compile,
    BracketScan, lemma_scan_bracket_next};
use crate::error::{ErrorSpec, KindSpec};
use crate::matcher::{char_ok, glob_matches, match_from};
use crate::text::{byte_len, byte_offset, is_alphabetic_char, is_alphanumeric_char, is_ws, lemma_byte_offset_full, lemma_byte_offset_mono,
    lemma_byte_offset_step, trim_hi, trim_lo};
use crate::globber::{entry_names, evaluation, holds, kept_indices, first_wildcard, last_separator, leaf_of, leaf_result, names_view,
    op_chain, runs_as, scan_root, OperatorEntry};
use crate::parser::{find_close, first_index_of, lemma_find_close, lemma_first_index_of,
    lemma_op_syntax_bounds, lemma_trim_hi, lemma_trim_lo, op_syntax, spec_parse, OpSyntax,
    PatternSpec};
use crate::operator::{GlobOperator, ReverseOp};
use crate::token::TokenSpec;
use vstd::prelude::*;
use vstd::utf8::{char_is_scalar, is_scalar};

verus! {

/// Matching the tail `rest` of a token sequence does not depend on the
/// tokens before it.
pub proof fn lemma_match_suffix(pre: Seq<TokenSpec>, rest: Seq<TokenSpec>, i: int, s: Seq<char>)
    requires
        0 <= i,
    ensures
        match_from(pre + rest, pre.len() + i, s) == match_from(rest, i, s),
    decreases s.len(), rest.len() - i,
{
    let toks = pre + rest;
    let k = pre.len() + i;
    if i < rest.len() {
        assert(toks[k] == rest[i]);
        if i + 1 < rest.len() {
            assert(toks[k + 1] == rest[i + 1]);
        }
        lemma_match_suffix(pre, rest, i + 1, s);
        if i + 2 <= rest.len() {
            lemma_match_suffix(pre, rest, i + 2, s);
        }
        if s.len() > 0 {
            lemma_match_suffix(pre, rest, i, s.drop_first());
            lemma_match_suffix(pre, rest, i + 1, s.drop_first());
        }
    }
}

/// `*` matches exactly the strings without a `/`.
pub proof fn lemma_star_excludes_separator(s: Seq<char>)
    ensures
        glob_matches(seq![TokenSpec::AnySeqNoSeparator], s) == (forall|k: int|
            0 <= k < s.len() ==> s[k] != '/'),
    decreases s.len(),
{
    let toks = seq![TokenSpec::AnySeqNoSeparator];
    assert(match_from(toks, 1, s) == (s.len() == 0));
    if s.len() > 0 {
        lemma_star_excludes_separator(s.drop_first());
        if forall|k: int| 0 <= k < s.len() ==> s[k] != '/' {
            assert forall|k: int| 0 <= k < s.drop_first().len() implies s.drop_first()[k] != '/' by {
                assert(s.drop_first()[k] == s[k + 1]);
            }
        }
        if glob_matches(toks, s) {
            assert forall|k: int| 0 <= k < s.len() implies s[k] != '/' by {
                if k > 0 {
                    assert(s.drop_first()[k - 1] == s[k]);
                }
            }
        }
    }
}

/// `**` matches every string.
pub proof fn lemma_globstar_matches_all(s: Seq<char>)
    ensures
        glob_matches(seq![TokenSpec::AnySeq], s),
    decreases s.len(),
{
    let toks = seq![TokenSpec::AnySeq];
    assert(toks.len() == 1 && toks[0] == TokenSpec::AnySeq);
    if s.len() > 0 {
        lemma_globstar_matches_all(s.drop_first());
    } else {
        assert(match_from(toks, 1, s));
    }
}

/// `?` matches exactly the one-character strings other than `/`.
pub proof fn lemma_question_matches_one_char(s: Seq<char>)
    ensures
        glob_matches(seq![TokenSpec::AnyChar], s) == (s.len() == 1 && s[0] != '/'),
{
    if s.len() > 0 {
        assert(match_from(seq![TokenSpec::AnyChar], 1, s.drop_first()) == (s.len() == 1));
    }
}

/// `[...]` matches exactly the one-character strings in its set.
pub proof fn lemma_set_matches_member(members: Set<u32>, s: Seq<char>)
    ensures
        glob_matches(seq![TokenSpec::CharSet(members)], s) == (s.len() == 1 && members.contains(
            s[0] as u32,
        )),
{
    if s.len() > 0 {
        assert(match_from(seq![TokenSpec::CharSet(members)], 1, s.drop_first()) == (s.len()
            == 1));
    }
}

/// `[^...]` matches exactly the one-character strings outside its set,
/// other than `/`.
pub proof fn lemma_negated_set_matches_non_member(members: Set<u32>, s: Seq<char>)
    ensures
        glob_matches(seq![TokenSpec::NegatedSet(members)], s) == (s.len() == 1 && s[0] != '/'
            && !members.contains(s[0] as u32)),
{
    if s.len() > 0 {
        assert(match_from(seq![TokenSpec::NegatedSet(members)], 1, s.drop_first()) == (s.len()
            == 1));
    }
}

/// The token that matches the character `c` only.
pub open spec fn literal_token(c: char) -> TokenSpec {
    TokenSpec::Char(c)
}

/// The literal tokens of a string.
pub open spec fn literal_tokens(p: Seq<char>) -> Seq<TokenSpec> {
    p.map_values(|c: char| literal_token(c))
}

/// A sequence of literal tokens matches exactly its own string.
pub proof fn lemma_literal_matches_itself(p: Seq<char>, s: Seq<char>)
    ensures
        glob_matches(literal_tokens(p), s) == (s == p),
    decreases p.len(),
{
    let toks = literal_tokens(p);
    if p.len() == 0 {
        assert(match_from(toks, 0, s) == (s.len() == 0));
        if s.len() == 0 {
            assert(s =~= p);
        }
    } else {
        let rest = literal_tokens(p.drop_first());
        let head = seq![literal_token(p[0])];
        assert forall|k: int| 0 <= k < toks.len() implies toks[k] == (head + rest)[k] by {
            if k > 0 {
                assert(p.drop_first()[k - 1] == p[k]);
            }
        }
        assert(toks =~= head + rest);
        lemma_match_suffix(head, rest, 0, s.drop_first());
        if s.len() > 0 {
            lemma_literal_matches_itself(p.drop_first(), s.drop_first());
            if s[0] == p[0] && s.drop_first() == p.drop_first() {
                assert forall|k: int| 0 <= k < s.len() implies s[k] == p[k] by {
                    if k > 0 {
                        assert(s.drop_first()[k - 1] == s[k]);
                        assert(p.drop_first()[k - 1] == p[k]);
                    }
                }
                assert(s =~= p);
            }
        }
        if s == p {
            assert(s.drop_first() == p.drop_first());
        }
    }
}

/// `**/` also matches no directory at all: whatever the tokens after it
/// match, the whole matches too (so `src/**/*.rs` accepts `src/lib.rs`).
pub proof fn lemma_globstar_separator_may_vanish(rest: Seq<TokenSpec>, s: Seq<char>)
    requires
        glob_matches(rest, s),
    ensures
        glob_matches(seq![TokenSpec::AnySeq, TokenSpec::Char('/')] + rest, s),
{
    let pre = seq![TokenSpec::AnySeq, TokenSpec::Char('/')];
    lemma_match_suffix(pre, rest, 0, s);
    assert((pre + rest)[1] == TokenSpec::Char('/'));
}

/// A string with no `\`, `?`, `*` or `[` is its own wildcard.
pub open spec fn is_plain(p: Seq<char>) -> bool {
    forall|k: int| 0 <= k < p.len() ==> p[k] != '\\' && p[k] != '?' && p[k] != '*' && p[k] != '['
}

proof fn lemma_plain_scan(cs: Seq<char>, i: int)
    requires
        0 <= i <= cs.len(),
        is_plain(cs),
    ensures
        scan_tokens(cs, i, cs.len() as int) == Ok::<Seq<TokenSpec>, ErrorSpec>(
            literal_tokens(cs.skip(i)),
        ),
    decreases cs.len() - i,
{
    if i < cs.len() {
        lemma_plain_scan(cs, i + 1);
        let lhs = literal_tokens(cs.skip(i));
        let rhs = seq![literal_token(cs[i])] + literal_tokens(cs.skip(i + 1));
        assert forall|k: int| 0 <= k < lhs.len() implies lhs[k] == rhs[k] by {
            if k > 0 {
                assert(cs.skip(i + 1)[k - 1] == cs.skip(i)[k]);
            }
        }
        assert(lhs =~= rhs);
    } else {
        assert(literal_tokens(cs.skip(i)) =~= Seq::<TokenSpec>::empty());
    }
}

/// A plain string compiles to its literal tokens, and so matches exactly
/// itself.
pub proof fn lemma_plain_pattern_is_literal(p: Seq<char>, s: Seq<char>)
    requires
        is_plain(p),
    ensures
        spec_compile(p) == Ok::<Seq<TokenSpec>, ErrorSpec>(literal_tokens(p)),
        glob_matches(literal_tokens(p), s) == (s == p),
{
    lemma_plain_scan(p, 0);
    assert(p.skip(0) =~= p);
    lemma_literal_matches_itself(p, s);
}

/// A backslash followed by an escapable character is that literal character.
pub proof fn lemma_escape_is_literal(c: char)
    requires
        is_escapable(c),
    ensures
        spec_compile(seq!['\\', c]) == Ok::<Seq<TokenSpec>, ErrorSpec>(seq![TokenSpec::Char(c)]),
{
    let cs = seq!['\\', c];
    assert(scan_tokens(cs, 2, 2) == Ok::<Seq<TokenSpec>, ErrorSpec>(Seq::empty()));
    assert(seq![TokenSpec::Char(c)] + Seq::<TokenSpec>::empty() =~= seq![TokenSpec::Char(c)]);
}

/// The byte span `start..end` lies inside the window `cs[lo..hi]`.
pub open spec fn span_within(e: ErrorSpec, cs: Seq<char>, lo: int, hi: int) -> bool {
    bo(cs, lo) <= e.start <= e.end <= bo(cs, hi)
}

proof fn lemma_offsets(cs: Seq<char>, i: int, j: int)
    requires
        0 <= i <= j <= cs.len(),
    ensures
        bo(cs, i) <= bo(cs, j),
{
    lemma_byte_offset_mono(cs, i, j);
}

proof fn lemma_bracket_span(cs: Seq<char>, open: int, j: int, hi: int)
    requires
        0 <= open < j <= hi,
        hi <= cs.len(),
    ensures
        scan_bracket(cs, open, j, hi) matches BracketScan::Failed { error } ==> span_within(
            error,
            cs,
            open,
            hi,
        ),
        scan_bracket(cs, open, j, hi) matches BracketScan::Closed { next, .. } ==> j < next <= hi
            && cs[next - 1] == ']',
    decreases hi - j,
{
    if j >= hi {
        if open <= hi {
            lemma_offsets(cs, open, hi);
        }
    } else if cs[j] == ']' {
    } else if cs[j] == '\\' {
        if j + 1 < hi {
            if !is_escapable(cs[j + 1]) {
                lemma_offsets(cs, open, j);
                lemma_byte_offset_step(cs, j);
                lemma_byte_offset_step(cs, j + 1);
                lemma_offsets(cs, j + 2, hi);
            } else {
                lemma_bracket_span(cs, open, j + 2, hi);
            }
        } else {
            lemma_offsets(cs, open, hi);
        }
    } else if j + 2 < hi && cs[j + 1] == '-' {
        lemma_bracket_span(cs, open, j + 3, hi);
    } else {
        lemma_bracket_span(cs, open, j + 1, hi);
    }
}

/// Every error of the wildcard grammar points inside the scanned window.
pub proof fn lemma_scan_error_span(cs: Seq<char>, i: int, hi: int)
    requires
        0 <= i <= hi <= cs.len(),
    ensures
        scan_tokens(cs, i, hi) matches Err(e) ==> span_within(e, cs, i, hi),
    decreases hi - i,
{
    if i < hi {
        lemma_byte_offset_step(cs, i);
        if cs[i] == '\\' {
            if i + 1 < hi {
                if !is_escapable(cs[i + 1]) {
                    lemma_byte_offset_step(cs, i + 1);
                    lemma_offsets(cs, i + 2, hi);
                } else {
                    lemma_scan_error_span(cs, i + 2, hi);
                    lemma_offsets(cs, i, i + 2);
                }
            } else {
                lemma_offsets(cs, i + 1, hi);
            }
        } else if cs[i] == '?' {
            lemma_scan_error_span(cs, i + 1, hi);
        } else if cs[i] == '*' {
            if i + 1 < hi && cs[i + 1] == '*' {
                lemma_scan_error_span(cs, i + 2, hi);
                lemma_offsets(cs, i, i + 2);
            } else {
                lemma_scan_error_span(cs, i + 1, hi);
            }
        } else if cs[i] == '[' {
            let negated = i + 1 < hi && cs[i + 1] == '^';
            let start = if negated {
                i + 2
            } else {
                i + 1
            };
            lemma_bracket_span(cs, i, start, hi);
            if let BracketScan::Closed { members, next } = scan_bracket(cs, i, start, hi) {
                lemma_byte_offset_step(cs, next - 1);
                lemma_offsets(cs, i, next - 1);
                lemma_offsets(cs, next, hi);
                lemma_scan_error_span(cs, next, hi);
                lemma_offsets(cs, i, next);
            }
        } else {
            lemma_scan_error_span(cs, i + 1, hi);
        }
    }
}

/// Every error that compiling a wildcard reports points inside the pattern:
/// `0 <= start <= end <=` its length in bytes.
pub proof fn lemma_compile_error_within_pattern(cs: Seq<char>)
    ensures
        spec_compile(cs) matches Err(e) ==> 0 <= e.start <= e.end <= byte_len(cs),
{
    lemma_scan_error_span(cs, 0, cs.len() as int);
    lemma_byte_offset_full(cs);
    assert(cs.take(0) =~= Seq::<char>::empty());
}

/// The byte span of `e` runs from the character boundary before `cs[p]` to
/// the one before `cs[q]`.
pub open spec fn boundary_span(e: ErrorSpec, cs: Seq<char>, p: int, q: int) -> bool {
    e.start == bo(cs, p) && e.end == bo(cs, q)
}

/// An error of the wildcard grammar in `cs[lo..hi]`: its span is non-empty,
/// runs between two character boundaries of the window, and starts at a
/// backslash or at the `[` of a bracket set.
pub open spec fn wildcard_error_shape(e: ErrorSpec, cs: Seq<char>, lo: int, hi: int) -> bool {
    &&& e.start < e.end
    &&& exists|p: int, q: int|
        lo <= p < q <= hi && (cs[p] == '\\' || cs[p] == '[') && #[trigger] boundary_span(
            e,
            cs,
            p,
            q,
        )
}

proof fn lemma_bracket_error_shape(cs: Seq<char>, open: int, j: int, hi: int)
    requires
        0 <= open < j <= hi <= cs.len(),
        cs[open] == '[',
    ensures
        scan_bracket(cs, open, j, hi) matches BracketScan::Failed { error } ==> wildcard_error_shape(
            error,
            cs,
            open,
            hi,
        ),
    decreases hi - j,
{
    if j >= hi {
        lemma_byte_offset_mono(cs, open, hi);
        assert(boundary_span(scan_bracket(cs, open, j, hi)->error, cs, open, hi));
    } else if cs[j] == ']' {
    } else if cs[j] == '\\' {
        if j + 1 < hi {
            if !is_escapable(cs[j + 1]) {
                lemma_byte_offset_step(cs, j);
                lemma_byte_offset_step(cs, j + 1);
                assert(boundary_span(escape_error(cs, j), cs, j, j + 2));
            } else {
                lemma_bracket_error_shape(cs, open, j + 2, hi);
            }
        } else {
            lemma_byte_offset_mono(cs, open, hi);
            assert(boundary_span(scan_bracket(cs, open, j, hi)->error, cs, open, hi));
        }
    } else if j + 2 < hi && cs[j + 1] == '-' {
        lemma_bracket_error_shape(cs, open, j + 3, hi);
    } else {
        lemma_bracket_error_shape(cs, open, j + 1, hi);
    }
}

/// Every error of the wildcard grammar has a non-empty span between two
/// character boundaries of the scanned window, starting at a backslash or
/// at a `[`.
pub proof fn lemma_scan_error_shape(cs: Seq<char>, i: int, hi: int)
    requires
        0 <= i <= hi <= cs.len(),
    ensures
        scan_tokens(cs, i, hi) matches Err(e) ==> wildcard_error_shape(e, cs, i, hi),
    decreases hi - i,
{
    if i < hi {
        lemma_byte_offset_step(cs, i);
        if cs[i] == '\\' {
            if i + 1 < hi {
                if !is_escapable(cs[i + 1]) {
                    lemma_byte_offset_step(cs, i + 1);
                    assert(boundary_span(escape_error(cs, i), cs, i, i + 2));
                } else {
                    lemma_scan_error_shape(cs, i + 2, hi);
                }
            } else {
                assert(boundary_span(scan_tokens(cs, i, hi)->Err_0, cs, i, i + 1));
            }
        } else if cs[i] == '?' {
            lemma_scan_error_shape(cs, i + 1, hi);
        } else if cs[i] == '*' {
            if i + 1 < hi && cs[i + 1] == '*' {
                lemma_scan_error_shape(cs, i + 2, hi);
            } else {
                lemma_scan_error_shape(cs, i + 1, hi);
            }
        } else if cs[i] == '[' {
            let negated = i + 1 < hi && cs[i + 1] == '^';
            let start = if negated {
                i + 2
            } else {
                i + 1
            };
            lemma_bracket_error_shape(cs, i, start, hi);
            lemma_bracket_span(cs, i, start, hi);
            if let BracketScan::Closed { members, next } = scan_bracket(cs, i, start, hi) {
                lemma_byte_offset_step(cs, next - 1);
                lemma_byte_offset_mono(cs, i, next);
                if members.is_empty() {
                    assert(boundary_span(scan_tokens(cs, i, hi)->Err_0, cs, i, next));
                }
                lemma_scan_error_shape(cs, next, hi);
            }
        } else {
            lemma_scan_error_shape(cs, i + 1, hi);
        }
    }
}

/// Every error that compiling a wildcard reports has a non-empty byte span
/// between two character boundaries of the pattern, starting at a
/// backslash or at a `[`.
pub proof fn lemma_compile_error_shape(cs: Seq<char>)
    ensures
        spec_compile(cs) matches Err(e) ==> wildcard_error_shape(e, cs, 0, cs.len() as int),
{
    lemma_scan_error_shape(cs, 0, cs.len() as int);
}

/// Every error that parsing a pattern reports points inside the parsed
/// window.
pub proof fn lemma_parse_error_span(cs: Seq<char>, lo: int, hi: int, valid: spec_fn(Seq<char>) -> bool)
    requires
        0 <= lo <= hi <= cs.len(),
    ensures
        spec_parse(cs, lo, hi, valid) matches Err(e) ==> span_within(e, cs, lo, hi),
    decreases hi - lo,
{
    let tl = trim_lo(cs, lo, hi);
    let th = trim_hi(cs, tl, hi);
    lemma_trim_lo(cs, lo, hi);
    lemma_trim_hi(cs, tl, hi);
    lemma_offsets(cs, lo, tl);
    lemma_offsets(cs, tl, hi);
    lemma_offsets(cs, th, hi);
    if tl < th {
        lemma_op_syntax_bounds(cs, tl, th);
        let open = first_index_of(cs, '(', tl, th);
        lemma_first_index_of(cs, '(', tl, th);
        match op_syntax(cs, tl, th) {
            OpSyntax::Failed { error } => {
                lemma_trim_hi(cs, tl, open);
                assert(find_close(cs, open, 0, th) == find_close(cs, open + 1, 1, th));
                lemma_find_close(cs, open + 1, 1, th);
                lemma_byte_offset_step(cs, open);
                lemma_offsets(cs, open + 1, th);
                lemma_offsets(cs, tl, open);
                let close = find_close(cs, open, 0, th);
                if close < th {
                    lemma_offsets(cs, tl, close + 1);
                    lemma_offsets(cs, close + 1, th);
                }
            },
            OpSyntax::Operator { name_end, open, close } => {
                lemma_parse_error_span(cs, open + 1, close, valid);
                lemma_offsets(cs, tl, name_end);
                lemma_offsets(cs, name_end, hi);
                lemma_offsets(cs, lo, open + 1);
                lemma_offsets(cs, close, hi);
            },
            OpSyntax::NotOperator => {
                lemma_scan_error_span(cs, tl, th);
            },
        }
    }
}

/// Every error that parsing a whole pattern reports points inside it:
/// `0 <= start <= end <=` its length in bytes.
pub proof fn lemma_parse_error_within_pattern(cs: Seq<char>, valid: spec_fn(Seq<char>) -> bool)
    ensures
        spec_parse(cs, 0, cs.len() as int, valid) matches Err(e) ==> 0 <= e.start <= e.end
            <= byte_len(cs),
{
    lemma_parse_error_span(cs, 0, cs.len() as int, valid);
    lemma_byte_offset_full(cs);
    assert(cs.take(0) =~= Seq::<char>::empty());
}

/// A pattern of whitespace only is the empty-pattern error, at its end.
pub proof fn lemma_blank_pattern_is_empty(cs: Seq<char>, valid: spec_fn(Seq<char>) -> bool)
    requires
        forall|k: int| 0 <= k < cs.len() ==> is_ws(#[trigger] cs[k]),
    ensures
        spec_parse(cs, 0, cs.len() as int, valid) matches Err(e) && e.kind == KindSpec::EmptyPattern
            && e.start == e.end && e.start == byte_len(cs),
{
    lemma_trim_lo_all_ws(cs, 0, cs.len() as int);
    lemma_byte_offset_full(cs);
}

proof fn lemma_trim_lo_all_ws(cs: Seq<char>, lo: int, hi: int)
    requires
        0 <= lo <= hi <= cs.len(),
        forall|k: int| lo <= k < hi ==> is_ws(#[trigger] cs[k]),
    ensures
        trim_lo(cs, lo, hi) == hi,
    decreases hi - lo,
{
    if lo < hi {
        lemma_trim_lo_all_ws(cs, lo + 1, hi);
    }
}

/// Only literal tokens from `i` on: the rest of the text has no unescaped
/// wildcard.
proof fn lemma_literal_scan_has_no_wildcard(p: Seq<char>, i: int)
    requires
        0 <= i <= p.len(),
        scan_tokens(p, i, p.len() as int) is Ok,
        forall|k: int|
            0 <= k < scan_tokens(p, i, p.len() as int)->Ok_0.len() ==> #[trigger] scan_tokens(
                p,
                i,
                p.len() as int,
            )->Ok_0[k] is Char,
    ensures
        first_wildcard(p, i) is None,
    decreases p.len() - i,
{
    let hi = p.len() as int;
    if i < hi {
        let ts = scan_tokens(p, i, hi)->Ok_0;
        if p[i] == '\\' {
            assert(i + 1 < hi && is_escapable(p[i + 1]));
            let rest = scan_tokens(p, i + 2, hi)->Ok_0;
            assert(ts == seq![TokenSpec::Char(p[i + 1])] + rest);
            assert forall|k: int| 0 <= k < rest.len() implies #[trigger] rest[k] is Char by {
                assert(ts[k + 1] == rest[k]);
            }
            lemma_literal_scan_has_no_wildcard(p, i + 2);
        } else if p[i] == '?' {
            assert(ts[0] == TokenSpec::AnyChar);
        } else if p[i] == '*' {
            assert(ts[0] == TokenSpec::AnySeq || ts[0] == TokenSpec::AnySeqNoSeparator);
        } else if p[i] == '[' {
            let negated = i + 1 < hi && p[i + 1] == '^';
            let start = if negated {
                i + 2
            } else {
                i + 1
            };
            lemma_scan_bracket_next(p, i, start, hi);
            assert(ts[0] is CharSet || ts[0] is NegatedSet);
        } else {
            let rest = scan_tokens(p, i + 1, hi)->Ok_0;
            let head = seq![literal_token(p[i])];
            assert(head.len() == 1);
            assert(ts =~= head + rest);
            assert(ts.len() == rest.len() + 1);
            assert forall|k: int| 0 <= k < rest.len() implies #[trigger] rest[k] is Char by {
                assert(ts[k + 1] == rest[k]);
                assert(ts[k + 1] is Char);
            }
            lemma_literal_scan_has_no_wildcard(p, i + 1);
        }
    }
}

/// A wildcard string that compiles to literal characters only has itself as
/// its scan root: the hint's `root` is the exact path when `is_literal`.
pub proof fn lemma_literal_root_is_whole_pattern(p: Seq<char>)
    requires
        spec_compile(p) is Ok,
        forall|k: int|
            0 <= k < spec_compile(p)->Ok_0.len() ==> #[trigger] spec_compile(p)->Ok_0[k] is Char,
    ensures
        scan_root(p) == p,
{
    lemma_literal_scan_has_no_wildcard(p, 0);
}

/// No unescaped wildcard from `i` on: a successful scan of the rest yields
/// literal tokens only.
proof fn lemma_no_wildcard_scan_is_literal(p: Seq<char>, i: int)
    requires
        0 <= i <= p.len(),
        scan_tokens(p, i, p.len() as int) is Ok,
        first_wildcard(p, i) is None,
    ensures
        forall|k: int|
            0 <= k < scan_tokens(p, i, p.len() as int)->Ok_0.len() ==> #[trigger] scan_tokens(
                p,
                i,
                p.len() as int,
            )->Ok_0[k] is Char,
    decreases p.len() - i,
{
    let hi = p.len() as int;
    if i < hi {
        let ts = scan_tokens(p, i, hi)->Ok_0;
        if p[i] == '\\' {
            assert(i + 1 < hi && is_escapable(p[i + 1]));
            lemma_no_wildcard_scan_is_literal(p, i + 2);
            let rest = scan_tokens(p, i + 2, hi)->Ok_0;
            let head = seq![literal_token(p[i + 1])];
            assert(ts =~= head + rest);
            assert forall|k: int| 0 <= k < ts.len() implies #[trigger] ts[k] is Char by {
                if k > 0 {
                    assert(ts[k] == rest[k - 1]);
                }
            }
        } else {
            lemma_no_wildcard_scan_is_literal(p, i + 1);
            let rest = scan_tokens(p, i + 1, hi)->Ok_0;
            let head = seq![literal_token(p[i])];
            assert(ts =~= head + rest);
            assert forall|k: int| 0 <= k < ts.len() implies #[trigger] ts[k] is Char by {
                if k > 0 {
                    assert(ts[k] == rest[k - 1]);
                }
            }
        }
    }
}

proof fn lemma_first_wildcard_bounds(p: Seq<char>, i: int)
    requires
        0 <= i,
    ensures
        first_wildcard(p, i) matches Some(w) ==> i <= w < p.len(),
    decreases p.len() - i,
{
    if i < p.len() {
        if p[i] == '\\' {
            if i + 1 < p.len() {
                lemma_first_wildcard_bounds(p, i + 2);
            }
        } else if !(p[i] == '*' || p[i] == '?' || p[i] == '[') {
            lemma_first_wildcard_bounds(p, i + 1);
        }
    }
}

proof fn lemma_last_separator_bounds(p: Seq<char>, end: int)
    requires
        end <= p.len(),
    ensures
        last_separator(p, end) matches Some(sep) ==> 0 <= sep < end && p[sep] == '/',
    decreases end,
{
    if end > 0 && p[end - 1] != '/' {
        lemma_last_separator_bounds(p, end - 1);
    }
}

/// The shape of a scan hint for a wildcard `p` that compiles: the root is a
/// prefix of `p`; it is all of `p` exactly when `p` compiles to literal
/// characters only (the hint is literal); otherwise it is empty or ends in
/// `/`.
pub proof fn lemma_scan_hint_shape(p: Seq<char>)
    requires
        spec_compile(p) is Ok,
    ensures
        scan_root(p).len() <= p.len(),
        p.take(scan_root(p).len() as int) == scan_root(p),
        (forall|k: int|
            0 <= k < spec_compile(p)->Ok_0.len() ==> #[trigger] spec_compile(p)->Ok_0[k] is Char)
            <==> scan_root(p) == p,
        scan_root(p) != p ==> scan_root(p).len() == 0 || scan_root(p).last() == '/',
{
    lemma_first_wildcard_bounds(p, 0);
    match first_wildcard(p, 0) {
        None => {
            lemma_no_wildcard_scan_is_literal(p, 0);
            assert(p.take(p.len() as int) =~= p);
        },
        Some(w) => {
            lemma_last_separator_bounds(p, w);
            if forall|k: int|
                0 <= k < spec_compile(p)->Ok_0.len() ==> #[trigger] spec_compile(p)->Ok_0[k] is Char {
                lemma_literal_scan_has_no_wildcard(p, 0);
            }
            match last_separator(p, w) {
                None => {
                    assert(p.take(0) =~= Seq::<char>::empty());
                },
                Some(sep) => {
                    assert(p.take(sep + 1).take(sep + 1) =~= p.take(sep + 1));
                    assert(p.take(sep + 1).len() < p.len());
                },
            }
        },
    }
}

/// Operator wrappers are transparent to the scan hint: `OP(x)` has the
/// wildcard leaf of `x`.
pub proof fn lemma_hint_ignores_operators(name: Seq<char>, inner: PatternSpec)
    ensures
        leaf_of(PatternSpec::Operator { name, inner: Box::new(inner) }) == leaf_of(inner),
{
}

/// `[lo-hi]` with `lo <= hi` is the set of every scalar value from `lo` to
/// `hi`.
pub proof fn lemma_range_set(lo: char, hi: char)
    requires
        lo != '\\',
        lo != ']',
        lo != '^',
        (lo as u32) <= (hi as u32),
    ensures
        spec_compile(seq!['[', lo, '-', hi, ']']) == Ok::<Seq<TokenSpec>, ErrorSpec>(
            seq![TokenSpec::CharSet(Set::new(|v: u32| (lo as u32) <= v <= (hi as u32) && is_scalar(v)))],
        ),
{
    let cs = seq!['[', lo, '-', hi, ']'];
    let m = Set::new(|v: u32| (lo as u32) <= v <= (hi as u32) && is_scalar(v));
    assert(scan_bracket(cs, 0, 4, 5) == BracketScan::Closed { members: Set::<u32>::empty(), next: 5 });
    assert(m.union(Set::<u32>::empty()) =~= m);
    assert(crate::compile::range_members(lo, hi) == m);
    assert(scan_bracket(cs, 0, 1, 5) == BracketScan::Closed { members: m, next: 5 });
    assert(m.contains(lo as u32)) by {
        char_is_scalar(lo);
    }
    assert(scan_tokens(cs, 5, 5) == Ok::<Seq<TokenSpec>, ErrorSpec>(Seq::empty()));
    assert(seq![TokenSpec::CharSet(m)] + Seq::<TokenSpec>::empty() =~= seq![TokenSpec::CharSet(m)]);
}

/// The members a bracket scan collects depend only on the characters of the
/// window, not on where the window stands.
proof fn lemma_bracket_window(cs: Seq<char>, lo: int, open: int, j: int, hi: int)
    requires
        0 <= lo <= open < j <= hi <= cs.len(),
    ensures
        ({
            let w = cs.subrange(lo, hi);
            match (scan_bracket(cs, open, j, hi), scan_bracket(w, open - lo, j - lo, hi - lo)) {
                (BracketScan::Closed { members: m1, next: n1 }, BracketScan::Closed {
                    members: m2,
                    next: n2,
                }) => m1 == m2 && n1 == n2 + lo,
                (BracketScan::Failed { .. }, BracketScan::Failed { .. }) => true,
                _ => false,
            }
        }),
    decreases hi - j,
{
    let w = cs.subrange(lo, hi);
    if j < hi {
        assert(w[j - lo] == cs[j]);
        if j + 1 < hi {
            assert(w[j + 1 - lo] == cs[j + 1]);
        }
        if j + 2 < hi {
            assert(w[j + 2 - lo] == cs[j + 2]);
        }
        if cs[j] == ']' {
        } else if cs[j] == '\\' {
            if j + 1 < hi && is_escapable(cs[j + 1]) {
                lemma_bracket_window(cs, lo, open, j + 2, hi);
            }
        } else if j + 2 < hi && cs[j + 1] == '-' {
            lemma_bracket_window(cs, lo, open, j + 3, hi);
        } else {
            lemma_bracket_window(cs, lo, open, j + 1, hi);
        }
    }
}

/// The tokens a scan yields depend only on the characters of the window,
/// not on where the window stands.
proof fn lemma_scan_window(cs: Seq<char>, lo: int, i: int, hi: int)
    requires
        0 <= lo <= i <= hi <= cs.len(),
    ensures
        ({
            let w = cs.subrange(lo, hi);
            &&& scan_tokens(cs, i, hi) is Ok <==> scan_tokens(w, i - lo, hi - lo) is Ok
            &&& scan_tokens(cs, i, hi) is Ok ==> scan_tokens(cs, i, hi)->Ok_0 == scan_tokens(
                w,
                i - lo,
                hi - lo,
            )->Ok_0
        }),
    decreases hi - i,
{
    let w = cs.subrange(lo, hi);
    if i < hi {
        assert(w[i - lo] == cs[i]);
        if i + 1 < hi {
            assert(w[i + 1 - lo] == cs[i + 1]);
        }
        if cs[i] == '\\' {
            if i + 1 < hi && is_escapable(cs[i + 1]) {
                lemma_scan_window(cs, lo, i + 2, hi);
            }
        } else if cs[i] == '?' {
            lemma_scan_window(cs, lo, i + 1, hi);
        } else if cs[i] == '*' {
            if i + 1 < hi && cs[i + 1] == '*' {
                lemma_scan_window(cs, lo, i + 2, hi);
            } else {
                lemma_scan_window(cs, lo, i + 1, hi);
            }
        } else if cs[i] == '[' {
            let negated = i + 1 < hi && cs[i + 1] == '^';
            let start = if negated {
                i + 2
            } else {
                i + 1
            };
            lemma_bracket_window(cs, lo, i, start, hi);
            lemma_scan_bracket_next(cs, i, start, hi);
            if let BracketScan::Closed { members, next } = scan_bracket(cs, i, start, hi) {
                lemma_scan_window(cs, lo, next, hi);
            }
        } else {
            lemma_scan_window(cs, lo, i + 1, hi);
        }
    }
}

/// The tokens of a parsed leaf are exactly what compiling its text gives.
pub proof fn lemma_leaf_tokens_are_compiled_text(
    cs: Seq<char>,
    lo: int,
    hi: int,
    valid: spec_fn(Seq<char>) -> bool,
)
    requires
        0 <= lo <= hi <= cs.len(),
    ensures
        spec_parse(cs, lo, hi, valid) matches Ok(p) ==> spec_compile(leaf_of(p).0) == Ok::<
            Seq<TokenSpec>,
            ErrorSpec,
        >(leaf_of(p).1),
    decreases hi - lo,
{
    let tl = trim_lo(cs, lo, hi);
    let th = trim_hi(cs, tl, hi);
    lemma_trim_lo(cs, lo, hi);
    lemma_trim_hi(cs, tl, hi);
    if tl < th {
        lemma_op_syntax_bounds(cs, tl, th);
        match op_syntax(cs, tl, th) {
            OpSyntax::Operator { name_end, open, close } => {
                lemma_leaf_tokens_are_compiled_text(cs, open + 1, close, valid);
            },
            OpSyntax::NotOperator => {
                lemma_scan_window(cs, tl, tl, th);
                assert(cs.subrange(tl, th).len() == th - tl);
            },
            _ => {},
        }
    }
}

/// Reversing twice restores the list: `REVERSE(REVERSE(p))` orders its
/// matches as `p` does.
pub proof fn lemma_reverse_twice<T>(s: Seq<T>)
    ensures
        s.reverse().reverse() == s,
{
    assert(s.reverse().reverse() =~= s);
}

/// A pattern without operators returns the wildcard step's result: the
/// matching candidates, cloned, in candidate order.
pub proof fn lemma_leaf_run<'a, T: Clone, G: Fn(&T) -> &str>(
    ops: Seq<OperatorEntry<'a, T>>,
    p: PatternSpec,
    get_name: G,
    cands: Seq<T>,
    names: Seq<&str>,
    stages: Seq<Seq<T>>,
    out: Seq<T>,
)
    requires
        p is Leaf,
        evaluation(ops, p, get_name, cands, names, stages, out),
    ensures
        leaf_result(out, cands, p->tokens, names_view(names)),
{
}

/// Running `NAME(inner)` runs `inner`, then hands its result to the
/// operator registered under `NAME`, once.
pub proof fn lemma_operator_stage<'a, T: Clone, G: Fn(&T) -> &str>(
    ops: Seq<OperatorEntry<'a, T>>,
    p: PatternSpec,
    get_name: G,
    cands: Seq<T>,
    names: Seq<&str>,
    stages: Seq<Seq<T>>,
    out: Seq<T>,
)
    requires
        p is Operator,
        evaluation(ops, p, get_name, cands, names, stages, out),
    ensures
        stages.len() >= 2,
        evaluation(
            ops,
            *p->inner,
            get_name,
            cands,
            names,
            stages.drop_last(),
            stages[stages.len() - 2],
        ),
        runs_as(ops, p->name, stages[stages.len() - 2], out),
{
    let inner = *p->inner;
    let chain = op_chain(p);
    let ic = op_chain(inner);
    let st = stages.drop_last();
    assert(chain == ic.push(p->name));
    assert(leaf_of(p) == leaf_of(inner));
    assert(chain[ic.len() as int] == p->name);
    assert forall|i: int| #![trigger ic[i]] 0 <= i < ic.len() implies runs_as(
        ops,
        ic[i],
        st[i],
        st[i + 1],
    ) by {
        assert(chain[i] == ic[i]);
    }
}

/// Names are registered once, so the operator that runs under a name is the
/// one entry that carries it.
pub proof fn lemma_runs_as_entry<'a, T>(
    ops: Seq<OperatorEntry<'a, T>>,
    k: int,
    before: Seq<T>,
    after: Seq<T>,
)
    requires
        entry_names(ops).no_duplicates(),
        0 <= k < ops.len(),
        runs_as(ops, ops[k].name@, before, after),
    ensures
        ops[k].op.transforms(before, after),
{
    let j = choose|j: int|
        0 <= j < ops.len() && ops[j].name@ == ops[k].name@ && #[trigger] ops[j].op.transforms(
            before,
            after,
        );
    assert(entry_names(ops)[j] == entry_names(ops)[k]);
}

/// With `ReverseOp` registered under `NAME`, running `NAME(inner)` returns
/// the result of `inner` reversed.
pub proof fn lemma_reverse_stage<'a, T: Clone, G: Fn(&T) -> &str>(
    ops: Seq<OperatorEntry<'a, T>>,
    k: int,
    p: PatternSpec,
    get_name: G,
    cands: Seq<T>,
    names: Seq<&str>,
    stages: Seq<Seq<T>>,
    out: Seq<T>,
)
    requires
        entry_names(ops).no_duplicates(),
        0 <= k < ops.len(),
        holds(ops[k], ReverseOp),
        p is Operator,
        p->name == ops[k].name@,
        evaluation(ops, p, get_name, cands, names, stages, out),
    ensures
        evaluation(
            ops,
            *p->inner,
            get_name,
            cands,
            names,
            stages.drop_last(),
            stages[stages.len() - 2],
        ),
        out == stages[stages.len() - 2].reverse(),
{
    lemma_operator_stage(ops, p, get_name, cands, names, stages, out);
    lemma_runs_as_entry(ops, k, stages[stages.len() - 2], out);
    assert(GlobOperator::<T>::transforms(&ReverseOp, stages[stages.len() - 2], out));
}

/// `name` reads as an operator name: a letter or `_`, then letters, digits
/// or `_`.
pub open spec fn ident_chars(name: Seq<char>) -> bool {
    &&& name.len() > 0
    &&& is_alphabetic_char(name[0]) || name[0] == '_'
    &&& forall|k: int|
        1 <= k < name.len() ==> is_alphanumeric_char(#[trigger] name[k]) || name[k] == '_'
}

/// The shape of a parsed pattern: every operator name is an identifier that
/// `valid` accepts, and the leaf text is non-empty, has no whitespace at
/// either end, and compiles to exactly the leaf's tokens.
pub open spec fn parsed_shape(p: PatternSpec, valid: spec_fn(Seq<char>) -> bool) -> bool
    decreases p,
{
    match p {
        PatternSpec::Leaf { pattern, tokens } => {
            &&& pattern.len() > 0
            &&& !is_ws(pattern[0])
            &&& !is_ws(pattern.last())
            &&& spec_compile(pattern) == Ok::<Seq<TokenSpec>, ErrorSpec>(tokens)
        },
        PatternSpec::Operator { name, inner } => {
            &&& valid(name)
            &&& ident_chars(name)
            &&& parsed_shape(*inner, valid)
        },
    }
}

proof fn lemma_trim_lo_ends(cs: Seq<char>, lo: int, hi: int)
    requires
        0 <= lo <= hi <= cs.len(),
    ensures
        trim_lo(cs, lo, hi) < hi ==> !is_ws(cs[trim_lo(cs, lo, hi)]),
    decreases hi - lo,
{
    if lo < hi && is_ws(cs[lo]) {
        lemma_trim_lo_ends(cs, lo + 1, hi);
    }
}

proof fn lemma_trim_hi_ends(cs: Seq<char>, lo: int, hi: int)
    requires
        0 <= lo <= hi <= cs.len(),
    ensures
        lo < trim_hi(cs, lo, hi) ==> !is_ws(cs[trim_hi(cs, lo, hi) - 1]),
    decreases hi - lo,
{
    if lo < hi && is_ws(cs[hi - 1]) {
        lemma_trim_hi_ends(cs, lo, hi - 1);
    }
}

/// Every successfully parsed pattern has the shape of [`parsed_shape`].
pub proof fn lemma_parsed_shape(cs: Seq<char>, lo: int, hi: int, valid: spec_fn(Seq<char>) -> bool)
    requires
        0 <= lo <= hi <= cs.len(),
    ensures
        spec_parse(cs, lo, hi, valid) matches Ok(p) ==> parsed_shape(p, valid),
    decreases hi - lo,
{
    let tl = trim_lo(cs, lo, hi);
    let th = trim_hi(cs, tl, hi);
    lemma_trim_lo(cs, lo, hi);
    lemma_trim_hi(cs, tl, hi);
    lemma_trim_lo_ends(cs, lo, hi);
    lemma_trim_hi_ends(cs, tl, hi);
    lemma_leaf_tokens_are_compiled_text(cs, lo, hi, valid);
    if tl < th {
        lemma_op_syntax_bounds(cs, tl, th);
        match op_syntax(cs, tl, th) {
            OpSyntax::Operator { name_end, open, close } => {
                lemma_parsed_shape(cs, open + 1, close, valid);
                let name = cs.subrange(tl, name_end);
                lemma_trim_hi(cs, tl, first_index_of(cs, '(', tl, th));
                assert forall|k: int| 1 <= k < name.len() implies is_alphanumeric_char(
                    #[trigger] name[k],
                ) || name[k] == '_' by {
                    assert(name[k] == cs[tl + k]);
                }
                assert(ident_chars(name));
            },
            OpSyntax::NotOperator => {
                let t = cs.subrange(tl, th);
                assert(t[0] == cs[tl]);
                assert(t.last() == cs[th - 1]);
            },
            _ => {},
        }
    }
}

/// A pattern with no `(` in it is a single wildcard leaf: its trimmed text,
/// compiled.  It parses exactly when that text is non-empty and compiles,
/// and then to that text and its tokens.
pub proof fn lemma_paren_free_pattern_is_leaf(cs: Seq<char>, valid: spec_fn(Seq<char>) -> bool)
    requires
        !cs.contains('('),
    ensures
        ({
            let tl = trim_lo(cs, 0, cs.len() as int);
            let t = cs.subrange(tl, trim_hi(cs, tl, cs.len() as int));
            &&& t.len() == 0 ==> (spec_parse(cs, 0, cs.len() as int, valid) matches Err(e)
                && e.kind == KindSpec::EmptyPattern)
            &&& t.len() > 0 ==> (spec_parse(cs, 0, cs.len() as int, valid) is Ok <==> spec_compile(
                t,
            ) is Ok)
            &&& t.len() > 0 ==> (spec_compile(t) matches Ok(ts) ==> spec_parse(
                cs,
                0,
                cs.len() as int,
                valid,
            ) == Ok::<PatternSpec, ErrorSpec>(PatternSpec::Leaf { pattern: t, tokens: ts }))
        }),
{
    let hi = cs.len() as int;
    let tl = trim_lo(cs, 0, hi);
    let th = trim_hi(cs, tl, hi);
    lemma_trim_lo(cs, 0, hi);
    lemma_trim_hi(cs, tl, hi);
    if tl < th {
        lemma_first_index_of(cs, '(', tl, th);
        let open = first_index_of(cs, '(', tl, th);
        if open < th {
            assert(cs[open] == '(');
            assert(cs.contains('('));
        }
        assert(op_syntax(cs, tl, th) == OpSyntax::NotOperator);
        lemma_scan_window(cs, tl, tl, th);
        assert(cs.subrange(tl, th).len() == th - tl);
    }
}

/// A character that stands for itself in a wildcard: no escape and no
/// wildcard.
pub open spec fn plain_char(c: char) -> bool {
    c != '\\' && c != '*' && c != '?' && c != '['
}

proof fn lemma_plain_before_wildcard(p: Seq<char>, i: int, x: int)
    requires
        0 <= i <= x <= p.len(),
        forall|k: int| i <= k < x ==> #[trigger] p[k] != '\\',
        first_wildcard(p, i) matches Some(w) ==> x <= w,
    ensures
        forall|k: int| i <= k < x ==> plain_char(#[trigger] p[k]),
    decreases x - i,
{
    if i < x {
        assert(p[i] != '\\');
        lemma_plain_before_wildcard(p, i + 1, x);
        assert forall|k: int| i <= k < x implies plain_char(#[trigger] p[k]) by {
            if k > i {
            }
        }
    }
}

proof fn lemma_scan_plain_prefix(p: Seq<char>, i: int, r: int)
    requires
        0 <= i <= r <= p.len(),
        forall|k: int| i <= k < r ==> plain_char(#[trigger] p[k]),
        scan_tokens(p, i, p.len() as int) is Ok,
    ensures
        scan_tokens(p, i, p.len() as int)->Ok_0.len() >= r - i,
        forall|k: int|
            i <= k < r ==> scan_tokens(p, i, p.len() as int)->Ok_0[k - i] == literal_token(
                #[trigger] p[k],
            ),
    decreases r - i,
{
    let n = p.len() as int;
    if i < r {
        assert(plain_char(p[i]));
        lemma_scan_plain_prefix(p, i + 1, r);
        let ts = scan_tokens(p, i, n)->Ok_0;
        let rest = scan_tokens(p, i + 1, n)->Ok_0;
        let head = seq![literal_token(p[i])];
        assert(ts =~= head + rest);
        assert forall|k: int| i <= k < r implies ts[k - i] == literal_token(#[trigger] p[k]) by {
            if k > i {
                assert(ts[k - i] == rest[k - i - 1]);
            }
        }
    }
}

proof fn lemma_match_plain_prefix(toks: Seq<TokenSpec>, p: Seq<char>, j: int, r: int, s: Seq<char>)
    requires
        0 <= j <= r <= toks.len(),
        r <= p.len(),
        forall|k: int| j <= k < r ==> toks[k] == literal_token(#[trigger] p[k]),
        match_from(toks, j, s),
    ensures
        s.len() >= r - j,
        forall|t: int| 0 <= t < r - j ==> #[trigger] s[t] == p[j + t],
    decreases r - j,
{
    if j < r {
        assert(toks[j] == literal_token(p[j]));
        assert(s.len() > 0 && s[0] == p[j] && match_from(toks, j + 1, s.drop_first()));
        lemma_match_plain_prefix(toks, p, j + 1, r, s.drop_first());
        assert forall|t: int| 0 <= t < r - j implies #[trigger] s[t] == p[j + t] by {
            if t > 0 {
                assert(s.drop_first()[t - 1] == s[t]);
            }
        }
    }
}

/// Every candidate a wildcard matches starts with the wildcard's scan root,
/// when the root holds no backslash escape (an escape stands for a single
/// character, so the root text is then not the matched text).
pub proof fn lemma_match_starts_with_root(p: Seq<char>, s: Seq<char>)
    requires
        spec_compile(p) is Ok,
        !scan_root(p).contains('\\'),
        glob_matches(spec_compile(p)->Ok_0, s),
    ensures
        scan_root(p).len() <= s.len(),
        s.take(scan_root(p).len() as int) == scan_root(p),
{
    let root = scan_root(p);
    lemma_scan_hint_shape(p);
    let r = root.len() as int;
    assert forall|k: int| 0 <= k < r implies #[trigger] p[k] != '\\' by {
        assert(root[k] == p[k]);
    }
    lemma_first_wildcard_bounds(p, 0);
    if let Some(w) = first_wildcard(p, 0) {
        lemma_last_separator_bounds(p, w);
    }
    lemma_plain_before_wildcard(p, 0, r);
    lemma_scan_plain_prefix(p, 0, r);
    let toks = spec_compile(p)->Ok_0;
    assert forall|k: int| 0 <= k < r implies toks[k] == literal_token(#[trigger] p[k]) by {
        assert(toks[k - 0] == literal_token(p[k]));
    }
    lemma_match_plain_prefix(toks, p, 0, r, s);
    assert(s.take(r) =~= root);
}

/// The empty token list matches exactly the empty candidate.
pub proof fn lemma_no_tokens_match_only_empty(s: Seq<char>)
    ensures
        glob_matches(Seq::<TokenSpec>::empty(), s) == (s.len() == 0),
{
}

/// The strings a single token stands for: `*` any run without `/`, `**`
/// any run at all, every other token one character it accepts.
pub open spec fn token_lang(t: TokenSpec, w: Seq<char>) -> bool {
    match t {
        TokenSpec::AnySeqNoSeparator => !w.contains('/'),
        TokenSpec::AnySeq => true,
        _ => w.len() == 1 && char_ok(t, w[0]),
    }
}

/// The tokens `toks[i..]` match `s` as a concatenation: token `i` takes a
/// first piece `s[..k]` of its language and the following tokens match the
/// rest; after a `**` directly followed by `/`, that `/` token may be
/// skipped.
pub open spec fn concat_step(toks: Seq<TokenSpec>, i: int, s: Seq<char>) -> bool {
    exists|k: int|
        0 <= k <= s.len() && #[trigger] token_lang(toks[i], s.take(k)) && (match_from(
            toks,
            i + 1,
            s.skip(k),
        ) || (toks[i] == TokenSpec::AnySeq && i + 1 < toks.len() && toks[i + 1] == TokenSpec::Char(
            '/',
        ) && match_from(toks, i + 2, s.skip(k))))
}

/// The glob semantics reads as a concatenation of the tokens' languages:
/// `toks[i..]` match `s` exactly when token `i` takes a first piece of `s`
/// from its language and the rest of the tokens match the rest of `s` (see
/// [`concat_step`]); no tokens match only the empty string.
pub proof fn lemma_match_is_concatenation(toks: Seq<TokenSpec>, i: int, s: Seq<char>)
    requires
        0 <= i < toks.len(),
    ensures
        match_from(toks, i, s) == concat_step(toks, i, s),
    decreases s.len(),
{
    let slash_next = i + 1 < toks.len() && toks[i + 1] == TokenSpec::Char('/');
    assert(s.take(0) =~= Seq::<char>::empty());
    assert(s.skip(0) =~= s);
    match toks[i] {
        TokenSpec::AnySeqNoSeparator => {
            if s.len() > 0 {
                lemma_match_is_concatenation(toks, i, s.drop_first());
            }
            if match_from(toks, i, s) {
                if match_from(toks, i + 1, s) {
                    assert(token_lang(toks[i], s.take(0)));
                } else {
                    let t = s.drop_first();
                    let k2 = choose|k: int|
                        0 <= k <= t.len() && #[trigger] token_lang(toks[i], t.take(k)) && match_from(
                            toks,
                            i + 1,
                            t.skip(k),
                        );
                    assert(s.take(k2 + 1) =~= seq![s[0]] + t.take(k2));
                    assert(s.skip(k2 + 1) =~= t.skip(k2));
                    assert(!s.take(k2 + 1).contains('/')) by {
                        if s.take(k2 + 1).contains('/') {
                            let j = choose|j: int| 0 <= j < s.take(k2 + 1).len() && #[trigger] s.take(k2 + 1)[j] == '/';
                            if j > 0 {
                                assert(t.take(k2)[j - 1] == '/');
                            }
                        }
                    }
                    assert(token_lang(toks[i], s.take(k2 + 1)));
                }
            }
            if concat_step(toks, i, s) {
                let k = choose|k: int|
                    0 <= k <= s.len() && #[trigger] token_lang(toks[i], s.take(k)) && match_from(
                        toks,
                        i + 1,
                        s.skip(k),
                    );
                if k > 0 {
                    let t = s.drop_first();
                    assert(s.take(k)[0] == s[0]);
                    assert(t.take(k - 1) =~= s.take(k).drop_first());
                    assert(t.skip(k - 1) =~= s.skip(k));
                    assert(!t.take(k - 1).contains('/')) by {
                        if t.take(k - 1).contains('/') {
                            let j = choose|j: int| 0 <= j < t.take(k - 1).len() && #[trigger] t.take(k - 1)[j] == '/';
                            assert(s.take(k)[j + 1] == '/');
                        }
                    }
                    assert(token_lang(toks[i], t.take(k - 1)));
                }
            }
        },
        TokenSpec::AnySeq => {
            if s.len() > 0 {
                lemma_match_is_concatenation(toks, i, s.drop_first());
            }
            if match_from(toks, i, s) {
                if match_from(toks, i + 1, s) || (slash_next && match_from(toks, i + 2, s)) {
                    assert(token_lang(toks[i], s.take(0)));
                } else {
                    let t = s.drop_first();
                    let k2 = choose|k: int|
                        0 <= k <= t.len() && #[trigger] token_lang(toks[i], t.take(k)) && (match_from(
                            toks,
                            i + 1,
                            t.skip(k),
                        ) || (toks[i] == TokenSpec::AnySeq && i + 1 < toks.len() && toks[i + 1]
                            == TokenSpec::Char('/') && match_from(toks, i + 2, t.skip(k))));
                    assert(s.skip(k2 + 1) =~= t.skip(k2));
                    assert(token_lang(toks[i], s.take(k2 + 1)));
                }
            }
            if concat_step(toks, i, s) {
                let k = choose|k: int|
                    0 <= k <= s.len() && #[trigger] token_lang(toks[i], s.take(k)) && (match_from(
                        toks,
                        i + 1,
                        s.skip(k),
                    ) || (toks[i] == TokenSpec::AnySeq && i + 1 < toks.len() && toks[i + 1]
                        == TokenSpec::Char('/') && match_from(toks, i + 2, s.skip(k))));
                if k > 0 {
                    let t = s.drop_first();
                    assert(t.skip(k - 1) =~= s.skip(k));
                    assert(token_lang(toks[i], t.take(k - 1)));
                }
            }
        },
        _ => {
            if match_from(toks, i, s) {
                assert(s.skip(1) =~= s.drop_first());
                assert(token_lang(toks[i], s.take(1)));
            }
            if concat_step(toks, i, s) {
                let k = choose|k: int|
                    0 <= k <= s.len() && #[trigger] token_lang(toks[i], s.take(k)) && match_from(
                        toks,
                        i + 1,
                        s.skip(k),
                    );
                assert(k == 1);
                assert(s.skip(1) =~= s.drop_first());
                assert(s.take(1)[0] == s[0]);
            }
        },
    }
}

/// A literal wildcard without backslash escapes (its scan hint is literal,
/// and its root is the whole text) matches exactly its root.
pub proof fn lemma_literal_hint_matches_root(p: Seq<char>, s: Seq<char>)
    requires
        spec_compile(p) is Ok,
        forall|k: int|
            0 <= k < spec_compile(p)->Ok_0.len() ==> #[trigger] spec_compile(p)->Ok_0[k] is Char,
        !p.contains('\\'),
    ensures
        glob_matches(spec_compile(p)->Ok_0, s) == (s == scan_root(p)),
{
    let n = p.len() as int;
    lemma_scan_hint_shape(p);
    lemma_first_wildcard_bounds(p, 0);
    assert forall|k: int| 0 <= k < n implies #[trigger] p[k] != '\\' by {
        if p[k] == '\\' {
            assert(p.contains('\\'));
        }
    }
    lemma_literal_scan_has_no_wildcard(p, 0);
    lemma_plain_before_wildcard(p, 0, n);
    lemma_scan_plain_prefix(p, 0, n);
    crate::compile::lemma_scan_tokens_len(p, 0, n);
    let toks = spec_compile(p)->Ok_0;
    assert(toks.len() == n);
    assert forall|k: int| 0 <= k < n implies toks[k] == literal_tokens(p)[k] by {
        assert(toks[k - 0] == literal_token(p[k]));
    }
    assert(toks =~= literal_tokens(p));
    lemma_literal_matches_itself(p, s);
}

/// How a trimmed window reads as `NAME(inner)`: the name runs from the
/// window's start to the first `(` (trailing whitespace dropped) and is an
/// identifier; the `)` that brings the parenthesis depth back to zero is the
/// last character of the window.
pub proof fn lemma_operator_syntax_shape(cs: Seq<char>, tl: int, th: int)
    requires
        0 <= tl <= th <= cs.len(),
    ensures
        op_syntax(cs, tl, th) matches OpSyntax::Operator { name_end, open, close } ==> {
            &&& open == first_index_of(cs, '(', tl, th)
            &&& name_end == trim_hi(cs, tl, open)
            &&& tl < name_end <= open < close
            &&& close + 1 == th
            &&& cs[open] == '('
            &&& cs[close] == ')'
            &&& close == find_close(cs, open, 0, th)
            &&& ident_chars(cs.subrange(tl, name_end))
            &&& forall|k: int| tl <= k < open ==> cs[k] != '('
        },
{
    lemma_op_syntax_bounds(cs, tl, th);
    lemma_first_index_of(cs, '(', tl, th);
    if let OpSyntax::Operator { name_end, open, close } = op_syntax(cs, tl, th) {
        let name = cs.subrange(tl, name_end);
        assert forall|k: int| 1 <= k < name.len() implies is_alphanumeric_char(#[trigger] name[k])
            || name[k] == '_' by {
            assert(name[k] == cs[tl + k]);
        }
    }
}

/// The escape table: `\*`, `\?`, `\[`, `\]`, `\(`, `\)`, `\"` and `\\` each compile
/// to the single literal character after the backslash.
pub proof fn lemma_escape_table(c: char)
    requires
        c == '*' || c == '?' || c == '[' || c == ']' || c == '(' || c == ')' || c == '"' || c
            == '\\',
    ensures
        spec_compile(seq!['\\', c]) == Ok::<Seq<TokenSpec>, ErrorSpec>(seq![TokenSpec::Char(c)]),
{
    let cs = seq!['\\', c];
    assert(cs[0] == '\\' && cs[1] == c);
    assert(scan_tokens(cs, 2, 2) == Ok::<Seq<TokenSpec>, ErrorSpec>(Seq::empty()));
    assert(seq![TokenSpec::Char(c)] + Seq::<TokenSpec>::empty() =~= seq![TokenSpec::Char(c)]);
}

/// The leaf step keeps exactly the candidates whose name matches: every
/// kept index is in range, the kept indices increase strictly, and an
/// index is kept exactly when its name matches the tokens.  However many
/// candidates match, all of them are kept.
pub proof fn lemma_kept_indices_filter(toks: Seq<TokenSpec>, names: Seq<Seq<char>>, n: int)
    requires
        0 <= n <= names.len(),
    ensures
        forall|j: int|
            0 <= j < kept_indices(toks, names, n).len() ==> 0 <= #[trigger] kept_indices(
                toks,
                names,
                n,
            )[j] < n,
        forall|j1: int, j2: int|
            0 <= j1 < j2 < kept_indices(toks, names, n).len() ==> #[trigger] kept_indices(
                toks,
                names,
                n,
            )[j1] < #[trigger] kept_indices(toks, names, n)[j2],
        forall|i: int|
            0 <= i < n ==> (kept_indices(toks, names, n).contains(i) <==> #[trigger] glob_matches(
                toks,
                names[i],
            )),
    decreases n,
{
    if n > 0 {
        lemma_kept_indices_filter(toks, names, n - 1);
        let prev = kept_indices(toks, names, n - 1);
        let now = kept_indices(toks, names, n);
        if glob_matches(toks, names[n - 1]) {
            assert(now == prev.push(n - 1));
            assert forall|i: int| 0 <= i < n implies (now.contains(i) <==> #[trigger] glob_matches(
                toks,
                names[i],
            )) by {
                if i < n - 1 {
                    if prev.contains(i) {
                        let j = choose|j: int| 0 <= j < prev.len() && prev[j] == i;
                        assert(now[j] == i);
                    }
                    if now.contains(i) {
                        let j = choose|j: int| 0 <= j < now.len() && now[j] == i;
                        if j == prev.len() {
                            assert(now[j] == n - 1);
                        } else {
                            assert(prev[j] == i);
                        }
                    }
                } else {
                    assert(now[prev.len() as int] == n - 1);
                }
            }
            assert forall|j1: int, j2: int|
                0 <= j1 < j2 < now.len() implies #[trigger] now[j1] < #[trigger] now[j2] by {
                if j2 < prev.len() {
                    assert(now[j1] == prev[j1] && now[j2] == prev[j2]);
                } else {
                    assert(now[j1] == prev[j1]);
                }
            }
        } else {
            assert forall|i: int| 0 <= i < n implies (now.contains(i) <==> #[trigger] glob_matches(
                toks,
                names[i],
            )) by {
                if i == n - 1 && now.contains(i) {
                    let j = choose|j: int| 0 <= j < now.len() && now[j] == i;
                    assert(now[j] < n - 1);
                }
            }
        }
    }
}

proof fn lemma_last_separator_at_least(p: Seq<char>, end: int, j: int)
    requires
        0 <= j < end <= p.len(),
        p[j] == '/',
    ensures
        last_separator(p, end) matches Some(sep) && j <= sep,
    decreases end,
{
    if p[end - 1] != '/' {
        lemma_last_separator_at_least(p, end - 1, j);
    }
}

proof fn lemma_first_wildcard_skips_plain(p: Seq<char>, i: int, k: int)
    requires
        0 <= i <= k <= p.len(),
        forall|q: int| i <= q < k ==> plain_char(#[trigger] p[q]),
    ensures
        first_wildcard(p, i) == first_wildcard(p, k),
    decreases k - i,
{
    if i < k {
        assert(plain_char(p[i]));
        lemma_first_wildcard_skips_plain(p, i + 1, k);
    }
}

/// The scan root reaches at least to every `/` that comes before any
/// wildcard: when `p[..k]` holds no `*`, `?`, `[` or backslash and ends in
/// `/`, the root is at least `k` characters long (so `logs/app?.log` has
/// the root `logs/`).
pub proof fn lemma_scan_root_reaches_separator(p: Seq<char>, k: int)
    requires
        0 < k <= p.len(),
        forall|q: int| 0 <= q < k ==> plain_char(#[trigger] p[q]),
        p[k - 1] == '/',
    ensures
        scan_root(p).len() >= k,
        scan_root(p) == p.take(scan_root(p).len() as int),
{
    lemma_first_wildcard_skips_plain(p, 0, k);
    lemma_first_wildcard_bounds(p, k);
    if let Some(w) = first_wildcard(p, 0) {
        lemma_last_separator_at_least(p, w, k - 1);
        lemma_last_separator_bounds(p, w);
        let sep = last_separator(p, w)->Some_0;
        assert(p.take(sep + 1).take(sep + 1) =~= p.take(sep + 1));
    } else {
        assert(p.take(p.len() as int) =~= p);
    }
}

} // verus!
