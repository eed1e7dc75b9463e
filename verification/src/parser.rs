// Parses the operator layer of a pattern, `OP(OP(...(wildcard)))`, into a
// `ParsedPattern` tree whose leaf holds the compiled wildcard tokens.  Error
// spans are byte offsets of the whole input string.

use crate::compile::{bo, compile_window, new_error, positions_ok, scan_tokens};
use crate::error::{error_spec, ErrorSpec, KindSpec, ParseError, ParseErrorKind};
use crate::text::{char_is_alphabetic, char_is_alphanumeric, chars_and_positions,
    is_alphabetic_char, is_alphanumeric_char, lemma_byte_offset_mono, lemma_byte_offset_step,
    string_from_window, trim_hi, trim_lo, window_trim_hi, window_trim_lo};
use crate::token::{tokens_view, MatchToken, TokenSpec};
use vstd::prelude::*;

verus! {

/// The Abstract Syntax Tree (AST) representing a parsed flexiglob pattern.
#[derive(Debug, PartialEq, Eq)]
pub enum ParsedPattern {
    /// A leaf string containing wildcards (e.g. ".text*").
    Leaf { pattern: String, tokens: Vec<MatchToken> },
    /// A pipeline operator wrapper (e.g. "REVERSE", "SORT").
    Operator { name: String, inner: Box<ParsedPattern> },
}

impl Clone for ParsedPattern {
    fn clone(&self) -> (r: Self)
        ensures
            r@ == self@,
        decreases self,
    {
        match self {
            ParsedPattern::Leaf { pattern, tokens } => {
                let copy = tokens.clone();
                proof {
                    assert(tokens_view(copy@) =~= tokens_view(tokens@));
                }
                ParsedPattern::Leaf { pattern: pattern.clone(), tokens: copy }
            },
            ParsedPattern::Operator { name, inner } => {
                let inner_copy: ParsedPattern = (**inner).clone();
                ParsedPattern::Operator { name: name.clone(), inner: Box::new(inner_copy) }
            },
        }
    }
}

/// The mathematical value of a [`ParsedPattern`].
pub ghost enum PatternSpec {
    Leaf { pattern: Seq<char>, tokens: Seq<TokenSpec> },
    Operator { name: Seq<char>, inner: Box<PatternSpec> },
}

pub open spec fn pattern_view(p: ParsedPattern) -> PatternSpec
    decreases p,
{
    match p {
        ParsedPattern::Leaf { pattern, tokens } => PatternSpec::Leaf {
            pattern: pattern@,
            tokens: tokens_view(tokens@),
        },
        ParsedPattern::Operator { name, inner } => PatternSpec::Operator {
            name: name@,
            inner: Box::new(pattern_view(*inner)),
        },
    }
}

impl View for ParsedPattern {
    type V = PatternSpec;

    open spec fn view(&self) -> PatternSpec {
        pattern_view(*self)
    }
}

pub open spec fn parse_view(r: Result<ParsedPattern, ParseError>) -> Result<PatternSpec, ErrorSpec> {
    match r {
        Ok(p) => Ok(p@),
        Err(e) => Err(e@),
    }
}

/// Index of the first `c` in `cs[i..hi]`, or `hi`.
pub open spec fn first_index_of(cs: Seq<char>, c: char, i: int, hi: int) -> int
    decreases hi - i,
{
    if i >= hi {
        hi
    } else if cs[i] == c {
        i
    } else {
        first_index_of(cs, c, i + 1, hi)
    }
}

/// Index of the `)` that brings the parenthesis depth, which is `depth`
/// before position `k`, back to zero; `hi` when there is none.  Every
/// parenthesis counts, escaped or not.
pub open spec fn find_close(cs: Seq<char>, k: int, depth: int, hi: int) -> int
    decreases hi - k,
{
    if k >= hi {
        hi
    } else if cs[k] == '(' {
        find_close(cs, k + 1, depth + 1, hi)
    } else if cs[k] == ')' {
        if depth == 1 {
            k
        } else {
            find_close(cs, k + 1, depth - 1, hi)
        }
    } else {
        find_close(cs, k + 1, depth, hi)
    }
}

/// `cs[lo..hi]` is an operator name: a letter or `_`, then letters, digits
/// or `_`.
pub open spec fn valid_ident(cs: Seq<char>, lo: int, hi: int) -> bool {
    &&& lo < hi
    &&& is_alphabetic_char(cs[lo]) || cs[lo] == '_'
    &&& forall|k: int| lo < k < hi ==> is_alphanumeric_char(#[trigger] cs[k]) || cs[k] == '_'
}

/// How the trimmed window `cs[tl..th]` reads at the operator layer.
pub ghost enum OpSyntax {
    /// Not `NAME(...)`: the window is a wildcard string.
    NotOperator,
    Failed { error: ErrorSpec },
    /// `NAME(inner)` with the name `cs[tl..name_end]`, `(` at `open` and the
    /// matching `)` at `close`, the last character of the window.
    Operator { name_end: int, open: int, close: int },
}

pub open spec fn op_syntax(cs: Seq<char>, tl: int, th: int) -> OpSyntax {
    let open = first_index_of(cs, '(', tl, th);
    let name_end = trim_hi(cs, tl, open);
    if open >= th || !valid_ident(cs, tl, name_end) {
        OpSyntax::NotOperator
    } else {
        let close = find_close(cs, open, 0, th);
        if close >= th {
            OpSyntax::Failed {
                error: error_spec(
                    KindSpec::MismatchedParentheses,
                    bo(cs, open),
                    bo(cs, open) + 1,
                    "Missing closing parenthesis for operator"@,
                ),
            }
        } else if close + 1 != th {
            OpSyntax::Failed {
                error: error_spec(
                    KindSpec::UnexpectedTrailingCharacters,
                    bo(cs, close + 1),
                    bo(cs, th),
                    "Unexpected trailing characters after operator closing parenthesis: '"@
                        + cs.subrange(close + 1, th) + "'"@,
                ),
            }
        } else {
            OpSyntax::Operator { name_end, open, close }
        }
    }
}

pub proof fn lemma_first_index_of(cs: Seq<char>, c: char, i: int, hi: int)
    requires
        i <= hi,
    ensures
        i <= first_index_of(cs, c, i, hi) <= hi,
        first_index_of(cs, c, i, hi) < hi ==> cs[first_index_of(cs, c, i, hi)] == c,
        forall|k: int| i <= k < first_index_of(cs, c, i, hi) ==> cs[k] != c,
    decreases hi - i,
{
    if i < hi && cs[i] != c {
        lemma_first_index_of(cs, c, i + 1, hi);
    }
}

pub proof fn lemma_find_close(cs: Seq<char>, k: int, depth: int, hi: int)
    requires
        k <= hi,
    ensures
        k <= find_close(cs, k, depth, hi) <= hi,
    decreases hi - k,
{
    if k < hi {
        if cs[k] == '(' {
            lemma_find_close(cs, k + 1, depth + 1, hi);
        } else if cs[k] == ')' {
            if depth != 1 {
                lemma_find_close(cs, k + 1, depth - 1, hi);
            }
        } else {
            lemma_find_close(cs, k + 1, depth, hi);
        }
    }
}

pub proof fn lemma_trim_lo(cs: Seq<char>, lo: int, hi: int)
    requires
        lo <= hi,
    ensures
        lo <= trim_lo(cs, lo, hi) <= hi,
    decreases hi - lo,
{
    if lo < hi && crate::text::is_ws(cs[lo]) {
        lemma_trim_lo(cs, lo + 1, hi);
    }
}

pub proof fn lemma_trim_hi(cs: Seq<char>, lo: int, hi: int)
    requires
        lo <= hi,
    ensures
        lo <= trim_hi(cs, lo, hi) <= hi,
    decreases hi - lo,
{
    if lo < hi && crate::text::is_ws(cs[hi - 1]) {
        lemma_trim_hi(cs, lo, hi - 1);
    }
}

/// Where the operator syntax of the window `cs[tl..th]` puts its parts.
pub proof fn lemma_op_syntax_bounds(cs: Seq<char>, tl: int, th: int)
    requires
        tl <= th,
    ensures
        op_syntax(cs, tl, th) matches OpSyntax::Operator { name_end, open, close } ==> tl
            < name_end <= open && open < close && close + 1 == th && cs[open] == '('
            && cs[close] == ')',
{
    let open = first_index_of(cs, '(', tl, th);
    lemma_first_index_of(cs, '(', tl, th);
    if open < th {
        lemma_trim_hi(cs, tl, open);
        assert(find_close(cs, open, 0, th) == find_close(cs, open + 1, 1, th));
        lemma_find_close(cs, open + 1, 1, th);
        lemma_find_close_char(cs, open + 1, 1, th);
    }
}

pub proof fn lemma_find_close_char(cs: Seq<char>, k: int, depth: int, hi: int)
    requires
        k <= hi,
    ensures
        find_close(cs, k, depth, hi) < hi ==> cs[find_close(cs, k, depth, hi)] == ')',
    decreases hi - k,
{
    if k < hi {
        if cs[k] == '(' {
            lemma_find_close_char(cs, k + 1, depth + 1, hi);
        } else if cs[k] == ')' {
            if depth != 1 {
                lemma_find_close_char(cs, k + 1, depth - 1, hi);
            }
        } else {
            lemma_find_close_char(cs, k + 1, depth, hi);
        }
    }
}

/// The pattern grammar, on the window `cs[lo..hi]`, with `valid` deciding
/// which operator names exist: after trimming whitespace, an empty window
/// is an error; `NAME(inner)` is an operator around the pattern `inner`;
/// anything else is a wildcard leaf.
pub open spec fn spec_parse(cs: Seq<char>, lo: int, hi: int, valid: spec_fn(Seq<char>) -> bool) -> Result<
    PatternSpec,
    ErrorSpec,
>
    decreases hi - lo,
{
    let tl = trim_lo(cs, lo, hi);
    let th = trim_hi(cs, tl, hi);
    if lo > hi {
        Err(error_spec(KindSpec::EmptyPattern, 0, 0, Seq::empty()))
    } else if tl >= th {
        Err(error_spec(KindSpec::EmptyPattern, bo(cs, tl), bo(cs, tl), "Empty pattern string"@))
    } else {
        proof {
            lemma_trim_lo(cs, lo, hi);
            lemma_trim_hi(cs, tl, hi);
            lemma_op_syntax_bounds(cs, tl, th);
        }
        match op_syntax(cs, tl, th) {
            OpSyntax::Failed { error } => Err(error),
            OpSyntax::Operator { name_end, open, close } => {
                let name = cs.subrange(tl, name_end);
                if valid(name) {
                    match spec_parse(cs, open + 1, close, valid) {
                        Ok(inner) => Ok(PatternSpec::Operator { name, inner: Box::new(inner) }),
                        Err(e) => Err(e),
                    }
                } else {
                    Err(
                        error_spec(
                            KindSpec::InvalidOperator(name),
                            bo(cs, tl),
                            bo(cs, name_end),
                            "Invalid or unrecognized operator name '"@ + name + "'"@,
                        ),
                    )
                }
            },
            OpSyntax::NotOperator => match scan_tokens(cs, tl, th) {
                Ok(tokens) => Ok(PatternSpec::Leaf { pattern: cs.subrange(tl, th), tokens }),
                Err(e) => Err(e),
            },
        }
    }
}

/// The answers of the validator `f` are those of the predicate `p`.
pub open spec fn faithful<F: Fn(&str) -> bool>(f: &F, p: spec_fn(Seq<char>) -> bool) -> bool {
    forall|s: &str, b: bool| #[trigger] f.ensures((s,), b) ==> b == p(s@)
}

fn first_paren(cs: &Vec<char>, lo: usize, hi: usize) -> (r: usize)
    requires
        lo <= hi <= cs.len(),
    ensures
        r == first_index_of(cs@, '(', lo as int, hi as int),
{
    let mut i = lo;
    while i < hi && cs[i] != '('
        invariant
            lo <= i <= hi <= cs.len(),
            first_index_of(cs@, '(', lo as int, hi as int) == first_index_of(
                cs@,
                '(',
                i as int,
                hi as int,
            ),
        decreases hi - i,
    {
        i = i + 1;
    }
    i
}

/// Finds the `)` matching the `(` at `open`; `hi` when there is none.
fn matching_close(cs: &Vec<char>, open: usize, hi: usize) -> (r: usize)
    requires
        open < hi <= cs.len(),
        cs@[open as int] == '(',
    ensures
        r == find_close(cs@, open as int, 0, hi as int),
{
    let mut depth: usize = 1;
    let mut k = open + 1;
    assert(find_close(cs@, open as int, 0, hi as int) == find_close(cs@, k as int, 1, hi as int));
    while k < hi
        invariant
            open < k <= hi <= cs.len(),
            1 <= depth <= k - open,
            find_close(cs@, open as int, 0, hi as int) == find_close(
                cs@,
                k as int,
                depth as int,
                hi as int,
            ),
        decreases hi - k,
    {
        let c = cs[k];
        if c == '(' {
            depth = depth + 1;
        } else if c == ')' {
            depth = depth - 1;
            if depth == 0 {
                return k;
            }
        }
        k = k + 1;
    }
    hi
}

/// The identifier shape of `name`, given for its first character whether it
/// is alphabetic and for each character whether it is alphanumeric: a
/// non-empty name whose first character is alphabetic or `_` and whose other
/// characters are alphanumeric or `_`.
pub open spec fn ident_shape(name: Seq<char>, first_alphabetic: bool, alphanumeric: Seq<bool>) -> bool {
    &&& name.len() > 0
    &&& first_alphabetic || name[0] == '_'
    &&& forall|k: int| 1 <= k < name.len() ==> #[trigger] alphanumeric[k] || name[k] == '_'
}

/// Decides whether `name` has the identifier shape, from the character
/// classes that `char::is_alphabetic` (for the first character) and
/// `char::is_alphanumeric` (for each character) gave.
pub fn identifier_from_classes(name: &Vec<char>, first_alphabetic: bool, alphanumeric: &Vec<bool>) -> (b: bool)
    requires
        alphanumeric.len() == name.len(),
    ensures
        b == ident_shape(name@, first_alphabetic, alphanumeric@),
{
    if name.len() == 0 {
        return false;
    }
    if !(first_alphabetic || name[0] == '_') {
        return false;
    }
    let mut k: usize = 1;
    while k < name.len()
        invariant
            1 <= k <= name.len(),
            alphanumeric.len() == name.len(),
            forall|m: int| 1 <= m < k ==> #[trigger] alphanumeric@[m] || name@[m] == '_',
        decreases name.len() - k,
    {
        if !(alphanumeric[k] || name[k] == '_') {
            return false;
        }
        k = k + 1;
    }
    true
}

fn valid_ident_exec(cs: &Vec<char>, lo: usize, hi: usize) -> (b: bool)
    requires
        lo <= hi <= cs.len(),
    ensures
        b == valid_ident(cs@, lo as int, hi as int),
{
    if lo >= hi {
        return false;
    }
    let first_alphabetic = char_is_alphabetic(cs[lo]);
    let mut name: Vec<char> = Vec::new();
    let mut alphanumeric: Vec<bool> = Vec::new();
    let mut k = lo;
    while k < hi
        invariant
            lo <= k <= hi <= cs.len(),
            name.len() == k - lo,
            alphanumeric.len() == k - lo,
            forall|m: int| 0 <= m < k - lo ==> #[trigger] name@[m] == cs@[lo + m],
            forall|m: int|
                0 <= m < k - lo ==> #[trigger] alphanumeric@[m] == is_alphanumeric_char(cs@[lo + m]),
        decreases hi - k,
    {
        name.push(cs[k]);
        alphanumeric.push(char_is_alphanumeric(cs[k]));
        k = k + 1;
    }
    let b = identifier_from_classes(&name, first_alphabetic, &alphanumeric);
    proof {
        if b {
            assert forall|m: int| lo < m < hi implies is_alphanumeric_char(#[trigger] cs@[m])
                || cs@[m] == '_' by {
                assert(alphanumeric@[m - lo] || name@[m - lo] == '_');
            }
        }
        if valid_ident(cs@, lo as int, hi as int) {
            assert forall|m: int| 1 <= m < name.len() implies #[trigger] alphanumeric@[m]
                || name@[m] == '_' by {
                assert(is_alphanumeric_char(cs@[lo + m]) || cs@[lo + m] == '_');
            }
        }
    }
    b
}

/// Reads the trimmed window `cs[tl..th]` at the operator layer; on success
/// returns where the name ends, and where `(` and its matching `)` stand.
fn parse_operator_syntax_or_error(cs: &Vec<char>, pos: &Vec<usize>, tl: usize, th: usize) -> (r:
    Result<Option<(usize, usize, usize)>, ParseError>)
    requires
        positions_ok(cs@, pos@),
        tl <= th <= cs.len(),
    ensures
        match r {
            Ok(None) => op_syntax(cs@, tl as int, th as int) == OpSyntax::NotOperator,
            Ok(Some((name_end, open, close))) => op_syntax(cs@, tl as int, th as int)
                == OpSyntax::Operator {
                name_end: name_end as int,
                open: open as int,
                close: close as int,
            },
            Err(e) => op_syntax(cs@, tl as int, th as int) == OpSyntax::Failed { error: e@ },
        },
{
    let open = first_paren(cs, tl, th);
    proof {
        lemma_first_index_of(cs@, '(', tl as int, th as int);
    }
    if open >= th {
        return Ok(None);
    }
    let name_end = window_trim_hi(cs, tl, open);
    if !valid_ident_exec(cs, tl, name_end) {
        return Ok(None);
    }
    let close = matching_close(cs, open, th);
    proof {
        lemma_op_syntax_bounds(cs@, tl as int, th as int);
        lemma_byte_offset_step(cs@, open as int);
        lemma_byte_offset_mono(cs@, open + 1, cs.len() as int);
        crate::text::lemma_byte_offset_full(cs@);
    }
    if close >= th {
        return Err(
            new_error(
                ParseErrorKind::MismatchedParentheses,
                pos[open],
                pos[open] + 1,
                String::from_str("Missing closing parenthesis for operator"),
            ),
        );
    }
    if close + 1 != th {
        let mut message = String::from_str(
            "Unexpected trailing characters after operator closing parenthesis: '",
        );
        let rest = string_from_window(cs, close + 1, th);
        message.append(rest.as_str());
        message.append("'");
        return Err(
            new_error(
                ParseErrorKind::UnexpectedTrailingCharacters,
                pos[close + 1],
                pos[th],
                message,
            ),
        );
    }
    Ok(Some((name_end, open, close)))
}

impl ParsedPattern {
    /// Parses a pattern string recursively, validating operator names with
    /// `is_valid_op`.  For every predicate whose answers `is_valid_op` gives,
    /// the result is the pattern grammar [`spec_parse`] under that predicate.
    pub fn parse(input: &str, is_valid_op: impl Fn(&str) -> bool) -> (r: Result<Self, ParseError>)
        requires
            forall|s: &str| #[trigger] is_valid_op.requires((s,)),
        ensures
            input@.len() < usize::MAX,
            forall|valid: spec_fn(Seq<char>) -> bool|
                #[trigger] faithful(&is_valid_op, valid) ==> parse_view(r) == spec_parse(
                    input@,
                    0,
                    input@.len() as int,
                    valid,
                ),
    {
        let (cs, pos) = chars_and_positions(input);
        Self::parse_inner(&cs, &pos, 0, cs.len(), &is_valid_op)
    }

    fn parse_inner<F: Fn(&str) -> bool>(
        cs: &Vec<char>,
        pos: &Vec<usize>,
        lo: usize,
        hi: usize,
        is_valid_op: &F,
    ) -> (r: Result<Self, ParseError>)
        requires
            positions_ok(cs@, pos@),
            lo <= hi <= cs.len(),
            forall|s: &str| #[trigger] is_valid_op.requires((s,)),
        ensures
            forall|valid: spec_fn(Seq<char>) -> bool|
                #[trigger] faithful(is_valid_op, valid) ==> parse_view(r) == spec_parse(
                    cs@,
                    lo as int,
                    hi as int,
                    valid,
                ),
        decreases hi - lo,
    {
        let tl = window_trim_lo(cs, lo, hi);
        let th = window_trim_hi(cs, tl, hi);
        if tl >= th {
            return Err(
                new_error(
                    ParseErrorKind::EmptyPattern,
                    pos[tl],
                    pos[tl],
                    String::from_str("Empty pattern string"),
                ),
            );
        }
        proof {
            lemma_op_syntax_bounds(cs@, tl as int, th as int);
        }
        match parse_operator_syntax_or_error(cs, pos, tl, th) {
            Err(e) => Err(e),
            Ok(Some((name_end, open, close))) => {
                let name = string_from_window(cs, tl, name_end);
                let name_ref = name.as_str();
                let ok = is_valid_op(name_ref);
                let ghost name_arg = name_ref;
                if ok {
                    let inner = Self::parse_inner(cs, pos, open + 1, close, is_valid_op);
                    let res = match inner {
                        Ok(p) => Ok(ParsedPattern::Operator { name, inner: Box::new(p) }),
                        Err(e) => Err(e),
                    };
                    proof {
                        assert forall|valid: spec_fn(Seq<char>) -> bool|
                            #[trigger] faithful(is_valid_op, valid) implies parse_view(res)
                            == spec_parse(cs@, lo as int, hi as int, valid) by {
                            assert(is_valid_op.ensures((name_arg,), ok));
                        }
                    }
                    res
                } else {
                    proof {
                        lemma_byte_offset_mono(cs@, name_end as int, cs.len() as int);
                        crate::text::lemma_byte_offset_full(cs@);
                    }
                    let mut message = String::from_str("Invalid or unrecognized operator name '");
                    message.append(name.as_str());
                    message.append("'");
                    let res = Err(
                        new_error(
                            ParseErrorKind::InvalidOperator(name),
                            pos[tl],
                            pos[name_end],
                            message,
                        ),
                    );
                    proof {
                        assert forall|valid: spec_fn(Seq<char>) -> bool|
                            #[trigger] faithful(is_valid_op, valid) implies parse_view(res)
                            == spec_parse(cs@, lo as int, hi as int, valid) by {
                            assert(is_valid_op.ensures((name_arg,), ok));
                        }
                    }
                    res
                }
            },
            Ok(None) => {
                match compile_window(cs, pos, tl, th) {
                    Ok(tokens) => {
                        let pattern = string_from_window(cs, tl, th);
                        Ok(ParsedPattern::Leaf { pattern, tokens })
                    },
                    Err(e) => Err(e),
                }
            },
        }
    }
}

} // verus!
