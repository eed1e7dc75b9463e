// Writing a parsed pattern back as text: `NAME(inner)` around the leaf's
// wildcard.  What a parse produced, rendered and parsed again, comes back
// unchanged.

use crate::parser::{
    find_close, first_index_of, lemma_first_index_of, lemma_op_syntax_bounds, lemma_trim_hi,
    lemma_trim_lo, op_syntax, spec_parse, valid_ident, OpSyntax, PatternSpec,
};
use crate::shift::{lemma_parse_window, shift_parse};
use crate::laws::ident_chars;
use crate::text::{byte_len, is_ws, lemma_byte_len_append, trim_hi, trim_lo};
use vstd::prelude::*;

verus! {

/// The text of a pattern: the leaf's wildcard, wrapped in `NAME(...)` for
/// every operator, innermost last.
pub open spec fn render(p: PatternSpec) -> Seq<char>
    decreases p,
{
    match p {
        PatternSpec::Leaf { pattern, .. } => pattern,
        PatternSpec::Operator { name, inner } => name + seq!['('] + render(*inner) + seq![')'],
    }
}

/// How a character moves the parenthesis depth.
pub open spec fn paren_step(c: char) -> int {
    if c == '(' {
        1
    } else if c == ')' {
        -1
    } else {
        0
    }
}

/// Opening minus closing parentheses of `s`.
pub open spec fn paren_net(s: Seq<char>) -> int
    decreases s.len(),
{
    if s.len() == 0 {
        0
    } else {
        paren_net(s.drop_last()) + paren_step(s.last())
    }
}

/// Every `)` of `s` closes a `(` before it, and every `(` is closed.
pub open spec fn balanced(s: Seq<char>) -> bool {
    &&& paren_net(s) == 0
    &&& forall|k: int| 0 <= k <= s.len() ==> paren_net(#[trigger] s.take(k)) >= 0
}

/// No parenthesis in `s`.
pub open spec fn paren_free(s: Seq<char>) -> bool {
    forall|i: int| 0 <= i < s.len() ==> #[trigger] s[i] != '(' && s[i] != ')'
}

proof fn lemma_net_append(a: Seq<char>, b: Seq<char>)
    ensures
        paren_net(a + b) == paren_net(a) + paren_net(b),
    decreases b.len(),
{
    if b.len() == 0 {
        assert(a + b =~= a);
    } else {
        assert((a + b).drop_last() =~= a + b.drop_last());
        lemma_net_append(a, b.drop_last());
    }
}

proof fn lemma_net_one(c: char)
    ensures
        paren_net(seq![c]) == paren_step(c),
{
    assert(seq![c].drop_last() =~= Seq::<char>::empty());
    assert(paren_net(Seq::<char>::empty()) == 0);
    assert(seq![c].last() == c);
}

proof fn lemma_net_no_open(s: Seq<char>)
    requires
        forall|i: int| 0 <= i < s.len() ==> #[trigger] s[i] != '(',
    ensures
        paren_net(s) <= 0,
    decreases s.len(),
{
    if s.len() > 0 {
        lemma_net_no_open(s.drop_last());
    }
}

proof fn lemma_net_paren_free(s: Seq<char>)
    requires
        paren_free(s),
    ensures
        paren_net(s) == 0,
        forall|k: int| 0 <= k <= s.len() ==> paren_net(#[trigger] s.take(k)) == 0,
    decreases s.len(),
{
    if s.len() > 0 {
        lemma_net_paren_free(s.drop_last());
        assert forall|k: int| 0 <= k <= s.len() implies paren_net(#[trigger] s.take(k)) == 0 by {
            if k < s.len() {
                assert(s.take(k) =~= s.drop_last().take(k));
            } else {
                assert(s.take(k) =~= s);
            }
        }
    } else {
        assert forall|k: int| 0 <= k <= s.len() implies paren_net(#[trigger] s.take(k)) == 0 by {
            assert(s.take(k) =~= Seq::<char>::empty());
        }
    }
}

/// Parenthesis-free text around a string does not change whether it is
/// balanced.
proof fn lemma_balanced_wrap(a: Seq<char>, b: Seq<char>, c: Seq<char>)
    requires
        paren_free(a),
        paren_free(c),
    ensures
        balanced(a + b + c) == balanced(b),
{
    let s = a + b + c;
    lemma_net_paren_free(a);
    lemma_net_paren_free(c);
    lemma_net_append(a + b, c);
    lemma_net_append(a, b);
    if balanced(s) {
        assert forall|k: int| 0 <= k <= b.len() implies paren_net(#[trigger] b.take(k)) >= 0 by {
            assert(s.take(a.len() + k) =~= a + b.take(k));
            lemma_net_append(a, b.take(k));
        }
    }
    if balanced(b) {
        assert forall|k: int| 0 <= k <= s.len() implies paren_net(#[trigger] s.take(k)) >= 0 by {
            if k <= a.len() {
                assert(s.take(k) =~= a.take(k));
            } else if k <= a.len() + b.len() {
                assert(s.take(k) =~= a + b.take(k - a.len()));
                lemma_net_append(a, b.take(k - a.len()));
            } else {
                assert(s.take(k) =~= (a + b) + c.take(k - a.len() - b.len()));
                lemma_net_append(a + b, c.take(k - a.len() - b.len()));
            }
        }
    }
}

/// A balanced string in parentheses is balanced.
proof fn lemma_balanced_parenthesized(r: Seq<char>)
    requires
        balanced(r),
    ensures
        balanced(seq!['('] + r + seq![')']),
{
    let s = seq!['('] + r + seq![')'];
    lemma_net_one('(');
    lemma_net_one(')');
    lemma_net_append(seq!['('], r);
    lemma_net_append(seq!['('] + r, seq![')']);
    assert forall|k: int| 0 <= k <= s.len() implies paren_net(#[trigger] s.take(k)) >= 0 by {
        if k == 0 {
            assert(s.take(0) =~= Seq::<char>::empty());
        } else if k <= r.len() + 1 {
            assert(s.take(k) =~= seq!['('] + r.take(k - 1));
            lemma_net_append(seq!['('], r.take(k - 1));
        } else {
            assert(s.take(k) =~= s);
        }
    }
}

proof fn lemma_net_split(cs: Seq<char>, k: int, t: int)
    requires
        0 <= k < t <= cs.len(),
    ensures
        paren_net(cs.subrange(k, t)) == paren_step(cs[k]) + paren_net(cs.subrange(k + 1, t)),
{
    assert(cs.subrange(k, t) =~= seq![cs[k]] + cs.subrange(k + 1, t));
    lemma_net_append(seq![cs[k]], cs.subrange(k + 1, t));
    lemma_net_one(cs[k]);
}

/// While the depth stays at one or more, the search for the closing `)`
/// walks on, with the depth the characters leave.
proof fn lemma_find_close_pass(cs: Seq<char>, k: int, j: int, d: int, h: int)
    requires
        0 <= k <= j <= h <= cs.len(),
        d >= 1,
        forall|t: int| k < t <= j ==> d + paren_net(#[trigger] cs.subrange(k, t)) >= 1,
    ensures
        find_close(cs, k, d, h) == find_close(cs, j, d + paren_net(cs.subrange(k, j)), h),
    decreases j - k,
{
    if k < j {
        let d2 = d + paren_step(cs[k]);
        lemma_net_split(cs, k, k + 1);
        assert(cs.subrange(k + 1, k + 1) =~= Seq::<char>::empty());
        assert(d + paren_net(cs.subrange(k, k + 1)) >= 1);
        assert forall|t: int| k + 1 < t <= j implies d2 + paren_net(
            #[trigger] cs.subrange(k + 1, t),
        ) >= 1 by {
            lemma_net_split(cs, k, t);
            assert(d + paren_net(cs.subrange(k, t)) >= 1);
        }
        lemma_find_close_pass(cs, k + 1, j, d2, h);
        lemma_net_split(cs, k, j);
    } else {
        assert(cs.subrange(k, k) =~= Seq::<char>::empty());
    }
}

/// Where the search finds the closing `)`, the depth has stayed at one or
/// more until then and that `)` brings it to zero.
proof fn lemma_find_close_found(cs: Seq<char>, k: int, d: int, h: int)
    requires
        0 <= k <= h <= cs.len(),
        d >= 1,
        find_close(cs, k, d, h) < h,
    ensures
        k <= find_close(cs, k, d, h),
        cs[find_close(cs, k, d, h)] == ')',
        d + paren_net(cs.subrange(k, find_close(cs, k, d, h))) == 1,
        forall|t: int|
            k < t <= find_close(cs, k, d, h) ==> d + paren_net(#[trigger] cs.subrange(k, t)) >= 1,
    decreases h - k,
{
    let c = find_close(cs, k, d, h);
    if cs[k] == ')' && d == 1 {
        assert(cs.subrange(k, k) =~= Seq::<char>::empty());
    } else {
        let d2 = d + paren_step(cs[k]);
        lemma_find_close_found(cs, k + 1, d2, h);
        lemma_net_split(cs, k, c);
        assert forall|t: int| k < t <= c implies d + paren_net(#[trigger] cs.subrange(k, t)) >= 1 by {
            lemma_net_split(cs, k, t);
            if t == k + 1 {
                assert(cs.subrange(k + 1, t) =~= Seq::<char>::empty());
            }
        }
    }
}

/// The text inside the parentheses of an operator is balanced.
proof fn lemma_inner_window_balanced(cs: Seq<char>, tl: int, th: int)
    requires
        0 <= tl <= th <= cs.len(),
        op_syntax(cs, tl, th) is Operator,
    ensures
        balanced(cs.subrange(op_syntax(cs, tl, th)->open + 1, op_syntax(cs, tl, th)->close)),
{
    lemma_op_syntax_bounds(cs, tl, th);
    let open = op_syntax(cs, tl, th)->open;
    let close = op_syntax(cs, tl, th)->close;
    let v = cs.subrange(open + 1, close);
    assert(find_close(cs, open, 0, th) == find_close(cs, open + 1, 1, th));
    lemma_find_close_found(cs, open + 1, 1, th);
    assert forall|k: int| 0 <= k <= v.len() implies paren_net(#[trigger] v.take(k)) >= 0 by {
        if k == 0 {
            assert(v.take(0) =~= Seq::<char>::empty());
        } else {
            assert(v.take(k) =~= cs.subrange(open + 1, open + 1 + k));
        }
    }
}

proof fn lemma_trim_ends(cs: Seq<char>, lo: int, hi: int)
    requires
        0 <= lo <= hi <= cs.len(),
    ensures
        lo <= trim_lo(cs, lo, hi) <= hi,
        lo <= trim_hi(cs, lo, hi) <= hi,
        trim_lo(cs, lo, hi) < hi ==> !is_ws(cs[trim_lo(cs, lo, hi)]),
        lo < trim_hi(cs, lo, hi) ==> !is_ws(cs[trim_hi(cs, lo, hi) - 1]),
        forall|k: int| lo <= k < trim_lo(cs, lo, hi) ==> is_ws(#[trigger] cs[k]),
        forall|k: int| trim_hi(cs, lo, hi) <= k < hi ==> is_ws(#[trigger] cs[k]),
    decreases hi - lo,
{
    lemma_trim_lo(cs, lo, hi);
    lemma_trim_hi(cs, lo, hi);
    if lo < hi {
        if is_ws(cs[lo]) {
            lemma_trim_ends(cs, lo + 1, hi);
        }
        if is_ws(cs[hi - 1]) {
            lemma_trim_ends(cs, lo, hi - 1);
        }
    }
}

proof fn lemma_ws_paren_free(cs: Seq<char>, lo: int, hi: int)
    requires
        0 <= lo <= hi <= cs.len(),
        forall|k: int| lo <= k < hi ==> is_ws(#[trigger] cs[k]),
    ensures
        paren_free(cs.subrange(lo, hi)),
{
    assert forall|i: int| 0 <= i < hi - lo implies #[trigger] cs.subrange(lo, hi)[i] != '('
        && cs.subrange(lo, hi)[i] != ')' by {
        assert(is_ws(cs[lo + i]));
    }
}

/// The text a parsed window renders to is balanced when the window is.
proof fn lemma_render_balanced(cs: Seq<char>, lo: int, hi: int, valid: spec_fn(Seq<char>) -> bool)
    requires
        0 <= lo <= hi <= cs.len(),
        balanced(cs.subrange(lo, hi)),
        spec_parse(cs, lo, hi, valid) is Ok,
    ensures
        balanced(render(spec_parse(cs, lo, hi, valid)->Ok_0)),
    decreases hi - lo,
{
    let tl = trim_lo(cs, lo, hi);
    let th = trim_hi(cs, tl, hi);
    lemma_trim_ends(cs, lo, hi);
    lemma_trim_ends(cs, tl, hi);
    let core = cs.subrange(tl, th);
    lemma_ws_paren_free(cs, lo, tl);
    lemma_ws_paren_free(cs, th, hi);
    assert(cs.subrange(lo, hi) =~= cs.subrange(lo, tl) + core + cs.subrange(th, hi));
    lemma_balanced_wrap(cs.subrange(lo, tl), core, cs.subrange(th, hi));
    lemma_op_syntax_bounds(cs, tl, th);
    match op_syntax(cs, tl, th) {
        OpSyntax::Operator { name_end, open, close } => {
            lemma_inner_window_balanced(cs, tl, th);
            lemma_render_balanced(cs, open + 1, close, valid);
            let name = cs.subrange(tl, name_end);
            let r = render(spec_parse(cs, open + 1, close, valid)->Ok_0);
            lemma_first_index_of(cs, '(', tl, th);
            // The name has no `(`; being a prefix of the balanced window, no
            // `)` either.
            assert forall|i: int| 0 <= i < name.len() implies #[trigger] name[i] != '('
                && name[i] != ')' by {
                assert(name[i] == cs[tl + i]);
                if name[i] == ')' {
                    let pre = core.take(i);
                    assert forall|q: int| 0 <= q < pre.len() implies #[trigger] pre[q] != '(' by {
                        assert(pre[q] == cs[tl + q]);
                    }
                    lemma_net_no_open(pre);
                    assert(core.take(i + 1) =~= pre + seq![')']);
                    lemma_net_append(pre, seq![')']);
                    lemma_net_one(')');
                    assert(paren_net(core.take(i + 1)) >= 0);
                }
            }
            lemma_balanced_parenthesized(r);
            let wrapped = seq!['('] + r + seq![')'];
            lemma_balanced_wrap(name, wrapped, Seq::<char>::empty());
            assert(name + wrapped + Seq::<char>::empty() =~= name + seq!['('] + r + seq![')']);
        },
        _ => {},
    }
}

proof fn lemma_first_index_at(s: Seq<char>, c: char, i: int, m: int, hi: int)
    requires
        0 <= i <= m < hi <= s.len(),
        s[m] == c,
        forall|k: int| i <= k < m ==> #[trigger] s[k] != c,
    ensures
        first_index_of(s, c, i, hi) == m,
    decreases m - i,
{
    if i < m {
        lemma_first_index_at(s, c, i + 1, m, hi);
    }
}

/// A parsed window, rendered and parsed again, gives the same pattern.
#[verifier::spinoff_prover]
#[verifier::rlimit(40)]
proof fn lemma_render_reparses(cs: Seq<char>, lo: int, hi: int, valid: spec_fn(Seq<char>) -> bool)
    requires
        0 <= lo <= hi <= cs.len(),
        spec_parse(cs, lo, hi, valid) is Ok,
    ensures
        ({
            let p = spec_parse(cs, lo, hi, valid)->Ok_0;
            spec_parse(render(p), 0, render(p).len() as int, valid) == Ok::<
                PatternSpec,
                crate::error::ErrorSpec,
            >(p)
        }),
    decreases hi - lo,
{
    let p = spec_parse(cs, lo, hi, valid)->Ok_0;
    let tl = trim_lo(cs, lo, hi);
    let th = trim_hi(cs, tl, hi);
    lemma_trim_ends(cs, lo, hi);
    lemma_trim_ends(cs, tl, hi);
    lemma_op_syntax_bounds(cs, tl, th);
    match op_syntax(cs, tl, th) {
        OpSyntax::Operator { name_end, open, close } => {
            lemma_render_reparses(cs, open + 1, close, valid);
            lemma_inner_window_balanced(cs, tl, th);
            lemma_render_balanced(cs, open + 1, close, valid);
            let inner = spec_parse(cs, open + 1, close, valid)->Ok_0;
            let name = cs.subrange(tl, name_end);
            let r = render(inner);
            let w = render(p);
            let m = name.len() as int;
            let n = w.len() as int;
            assert(w =~= name + seq!['('] + r + seq![')']);
            assert(w[0] == cs[tl]);
            assert(w[n - 1] == ')');
            // Trimming leaves `w` whole.
            assert(trim_lo(w, 0, n) == 0);
            assert(trim_hi(w, 0, n) == n);
            // The first `(` follows the name.
            lemma_first_index_of(cs, '(', tl, th);
            lemma_trim_hi(cs, tl, open);
            lemma_trim_ends(cs, tl, open);
            assert forall|k: int| 0 <= k < m implies #[trigger] w[k] != '(' by {
                assert(w[k] == cs[tl + k]);
            }
            lemma_first_index_at(w, '(', 0, m, n);
            assert(w[m - 1] == cs[name_end - 1]);
            assert(trim_hi(w, 0, m) == m);
            assert(valid_ident(w, 0, m) == valid_ident(cs, tl, name_end)) by {
                assert(w[0] == cs[tl]);
                if valid_ident(cs, tl, name_end) {
                    assert forall|k: int| 0 < k < m implies crate::text::is_alphanumeric_char(
                        #[trigger] w[k],
                    ) || w[k] == '_' by {
                        assert(w[k] == cs[tl + k]);
                    }
                }
                if valid_ident(w, 0, m) {
                    assert forall|k: int| tl < k < name_end implies crate::text::is_alphanumeric_char(
                        #[trigger] cs[k],
                    ) || cs[k] == '_' by {
                        assert(w[k - tl] == cs[k]);
                    }
                }
            }
            // The `)` that closes it is the last character.
            assert(find_close(w, m, 0, n) == find_close(w, m + 1, 1, n));
            assert forall|t: int| m + 1 < t <= n - 1 implies 1 + paren_net(
                #[trigger] w.subrange(m + 1, t),
            ) >= 1 by {
                assert(w.subrange(m + 1, t) =~= r.take(t - m - 1));
            }
            lemma_find_close_pass(w, m + 1, n - 1, 1, n);
            assert(w.subrange(m + 1, n - 1) =~= r);
            assert(find_close(w, n - 1, 1, n) == n - 1);
            assert(op_syntax(w, 0, n) == OpSyntax::Operator { name_end: m, open: m, close: n - 1 });
            assert(w.subrange(0, m) =~= name);
            lemma_parse_window(w, m + 1, n - 1, valid);
            assert(spec_parse(w, m + 1, n - 1, valid) == shift_parse(
                spec_parse(r, 0, r.len() as int, valid),
                crate::compile::bo(w, m + 1),
            ));
        },
        OpSyntax::NotOperator => {
            assert(trim_lo(cs, tl, th) == tl);
            assert(trim_hi(cs, tl, th) == th);
            assert(spec_parse(cs, tl, th, valid) == spec_parse(cs, lo, hi, valid));
            lemma_parse_window(cs, tl, th, valid);
        },
        _ => {},
    }
}

/// Rendering a parsed pattern and parsing the text again gives back the
/// same pattern, with the same operator validator.
pub proof fn lemma_render_round_trip(cs: Seq<char>, valid: spec_fn(Seq<char>) -> bool)
    requires
        spec_parse(cs, 0, cs.len() as int, valid) is Ok,
    ensures
        ({
            let p = spec_parse(cs, 0, cs.len() as int, valid)->Ok_0;
            spec_parse(render(p), 0, render(p).len() as int, valid) == Ok::<
                PatternSpec,
                crate::error::ErrorSpec,
            >(p)
        }),
{
    lemma_render_reparses(cs, 0, cs.len() as int, valid);
}

/// An identifier that the validator accepts, written before a parenthesized
/// balanced text, is an operator: the text parses as that operator around
/// the parsed text inside, or fails with the inside's error, moved past the
/// name and its `(`.  The name's length does not matter.
pub proof fn lemma_identifier_call_is_operator(
    name: Seq<char>,
    body: Seq<char>,
    valid: spec_fn(Seq<char>) -> bool,
)
    requires
        ident_chars(name),
        valid(name),
        !is_ws(name[0]),
        !is_ws(name.last()),
        forall|i: int| 0 <= i < name.len() ==> #[trigger] name[i] != '(',
        balanced(body),
    ensures
        ({
            let w = name + seq!['('] + body + seq![')'];
            spec_parse(w, 0, w.len() as int, valid) == match spec_parse(
                body,
                0,
                body.len() as int,
                valid,
            ) {
                Ok(inner) => Ok::<PatternSpec, crate::error::ErrorSpec>(
                    PatternSpec::Operator { name, inner: Box::new(inner) },
                ),
                Err(e) => Err(crate::shift::shift_error(e, byte_len(name) + 1int)),
            }
        }),
{
    let w = name + seq!['('] + body + seq![')'];
    let m = name.len() as int;
    let n = w.len() as int;
    assert(w[0] == name[0]);
    assert(w[n - 1] == ')');
    assert(trim_lo(w, 0, n) == 0);
    assert(trim_hi(w, 0, n) == n);
    assert forall|k: int| 0 <= k < m implies #[trigger] w[k] != '(' by {
        assert(w[k] == name[k]);
    }
    lemma_first_index_at(w, '(', 0, m, n);
    assert(w[m - 1] == name.last());
    assert(trim_hi(w, 0, m) == m);
    assert(valid_ident(w, 0, m)) by {
        assert forall|k: int| 0 < k < m implies crate::text::is_alphanumeric_char(#[trigger] w[k])
            || w[k] == '_' by {
            assert(w[k] == name[k]);
        }
    }
    assert(find_close(w, m, 0, n) == find_close(w, m + 1, 1, n));
    assert forall|t: int| m + 1 < t <= n - 1 implies 1 + paren_net(
        #[trigger] w.subrange(m + 1, t),
    ) >= 1 by {
        assert(w.subrange(m + 1, t) =~= body.take(t - m - 1));
    }
    lemma_find_close_pass(w, m + 1, n - 1, 1, n);
    assert(w.subrange(m + 1, n - 1) =~= body);
    assert(find_close(w, n - 1, 1, n) == n - 1);
    assert(op_syntax(w, 0, n) == OpSyntax::Operator { name_end: m, open: m, close: n - 1 });
    assert(w.subrange(0, m) =~= name);
    lemma_parse_window(w, m + 1, n - 1, valid);
    assert(w.take(m + 1) =~= name + seq!['(']);
    lemma_byte_len_append(name, seq!['(']);
    assert(seq!['('].drop_first() =~= Seq::<char>::empty());
    assert(byte_len(Seq::<char>::empty()) == 0);
    assert(seq!['('][0] == '(');
    assert(crate::text::utf8_width('(') == 1);
    assert(byte_len(seq!['(']) == 1);
}

} // verus!
