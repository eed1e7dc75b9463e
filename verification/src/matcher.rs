// NFA-based wildcard matching engine.  Given a compiled token slice and a
// candidate string, `wildcard_match` runs a non-deterministic finite automaton
// simulation in O(n×m) time with O(n) space.  Its result is proved equal to
// the declarative glob semantics `glob_matches`.  The only recognised path
// separator is '/'; backslash in candidate strings is an ordinary character.

use crate::token::{tokens_view, MatchToken, TokenSpec};
use vstd::prelude::*;

verus! {

/// Whether a token that consumes exactly one character accepts `c`.
pub open spec fn char_ok(t: TokenSpec, c: char) -> bool {
    match t {
        TokenSpec::Char(ch) => c == ch,
        TokenSpec::AnyChar => c != '/',
        TokenSpec::CharSet(s) => s.contains(c as u32),
        TokenSpec::NegatedSet(s) => c != '/' && !s.contains(c as u32),
        _ => false,
    }
}

/// The glob semantics: the tokens `toks[i..]` match all of `s`.
///
/// * `*` matches any run of non-`/` characters;
/// * `**` matches any run of characters; when a `/` token follows it, that
///   `/` may be skipped, whether `**` took characters or none (so `a/**/b`
///   matches `a/b`, and `**/x` matches `abcx`);
/// * every other token matches exactly one character it accepts.
pub open spec fn match_from(toks: Seq<TokenSpec>, i: int, s: Seq<char>) -> bool
    decreases s.len(), toks.len() - i,
{
    if i < 0 || i >= toks.len() {
        s.len() == 0
    } else {
        match toks[i] {
            TokenSpec::AnySeqNoSeparator => match_from(toks, i + 1, s) || (s.len() > 0 && s[0]
                != '/' && match_from(toks, i, s.drop_first())),
            TokenSpec::AnySeq => match_from(toks, i + 1, s) || (i + 1 < toks.len() && toks[i + 1]
                == TokenSpec::Char('/') && match_from(toks, i + 2, s)) || (s.len() > 0
                && match_from(toks, i, s.drop_first())),
            t => s.len() > 0 && char_ok(t, s[0]) && match_from(toks, i + 1, s.drop_first()),
        }
    }
}

/// The whole token sequence matches the whole candidate.
pub open spec fn glob_matches(toks: Seq<TokenSpec>, s: Seq<char>) -> bool {
    match_from(toks, 0, s)
}

/// A zero-width transition of the automaton from state `i` to state `j`.
pub open spec fn eps_edge(toks: Seq<TokenSpec>, i: int, j: int) -> bool {
    &&& 0 <= i < toks.len()
    &&& match toks[i] {
        TokenSpec::AnySeqNoSeparator => j == i + 1,
        TokenSpec::AnySeq => j == i + 1 || (j == i + 2 && i + 1 < toks.len() && toks[i + 1]
            == TokenSpec::Char('/')),
        _ => false,
    }
}

/// State `j` is reachable from state `i` by zero-width transitions.
pub open spec fn eps_reach(toks: Seq<TokenSpec>, i: int, j: int) -> bool
    decreases j - i,
{
    if i == j {
        true
    } else if i < j {
        (eps_edge(toks, i, i + 1) && eps_reach(toks, i + 1, j)) || (i + 2 <= j && eps_edge(
            toks,
            i,
            i + 2,
        ) && eps_reach(toks, i + 2, j))
    } else {
        false
    }
}

/// A transition of the automaton from state `j` to state `k` consuming `c`.
pub open spec fn step(toks: Seq<TokenSpec>, j: int, c: char, k: int) -> bool {
    &&& 0 <= j < toks.len()
    &&& match toks[j] {
        TokenSpec::AnySeqNoSeparator => c != '/' && k == j,
        TokenSpec::AnySeq => k == j,
        t => char_ok(t, c) && k == j + 1,
    }
}

/// A state set closed under zero-width transitions.
pub open spec fn eps_closed(toks: Seq<TokenSpec>, act: Seq<bool>) -> bool {
    forall|i: int, j: int|
        0 <= i < act.len() && #[trigger] act[i] && #[trigger] eps_edge(toks, i, j) ==> 0 <= j
            < act.len() && act[j]
}

/// Some state of `act` accepts the remaining input `r`.
pub open spec fn some_accepts(toks: Seq<TokenSpec>, act: Seq<bool>, r: Seq<char>) -> bool {
    exists|j: int| 0 <= j < act.len() && #[trigger] act[j] && match_from(toks, j, r)
}

proof fn lemma_eps_reach_le(toks: Seq<TokenSpec>, i: int, j: int)
    requires
        eps_reach(toks, i, j),
    ensures
        i <= j,
    decreases j - i,
{
}

proof fn lemma_eps_reach_extend(toks: Seq<TokenSpec>, a: int, b: int, c: int)
    requires
        eps_reach(toks, a, b),
        eps_edge(toks, b, c),
    ensures
        eps_reach(toks, a, c),
    decreases b - a,
{
    lemma_eps_reach_le(toks, a, b);
    if a == b {
        assert(eps_reach(toks, c, c));
    } else if eps_edge(toks, a, a + 1) && eps_reach(toks, a + 1, b) {
        lemma_eps_reach_extend(toks, a + 1, b, c);
    } else {
        lemma_eps_reach_extend(toks, a + 2, b, c);
    }
}

/// Zero-width transitions preserve acceptance backwards.
proof fn lemma_eps_accepts(toks: Seq<TokenSpec>, i: int, j: int, s: Seq<char>)
    requires
        0 <= i,
        eps_reach(toks, i, j),
        match_from(toks, j, s),
    ensures
        match_from(toks, i, s),
    decreases j - i,
{
    if i != j {
        if eps_edge(toks, i, i + 1) && eps_reach(toks, i + 1, j) {
            lemma_eps_accepts(toks, i + 1, j, s);
        } else {
            lemma_eps_accepts(toks, i + 2, j, s);
        }
    }
}

/// A closed state set contains everything reachable from its states.
proof fn lemma_closed_reach(toks: Seq<TokenSpec>, act: Seq<bool>, i: int, j: int)
    requires
        eps_closed(toks, act),
        0 <= i < act.len(),
        act[i],
        eps_reach(toks, i, j),
    ensures
        0 <= j < act.len() && act[j],
    decreases j - i,
{
    if i != j {
        if eps_edge(toks, i, i + 1) && eps_reach(toks, i + 1, j) {
            lemma_closed_reach(toks, act, i + 1, j);
        } else {
            lemma_closed_reach(toks, act, i + 2, j);
        }
    }
}

/// Consuming a character and then accepting the rest accepts the whole.
proof fn lemma_step_accepts(toks: Seq<TokenSpec>, j: int, k: int, s: Seq<char>)
    requires
        s.len() > 0,
        step(toks, j, s[0], k),
        match_from(toks, k, s.drop_first()),
    ensures
        match_from(toks, j, s),
{
}

/// Acceptance of a non-empty input starts with zero-width transitions and
/// then one consuming transition.
proof fn lemma_accepts_decompose(toks: Seq<TokenSpec>, i: int, s: Seq<char>) -> (jk: (int, int))
    requires
        0 <= i,
        s.len() > 0,
        match_from(toks, i, s),
    ensures
        eps_reach(toks, i, jk.0),
        step(toks, jk.0, s[0], jk.1),
        match_from(toks, jk.1, s.drop_first()),
    decreases toks.len() - i,
{
    match toks[i] {
        TokenSpec::AnySeqNoSeparator => {
            if match_from(toks, i + 1, s) {
                let jk = lemma_accepts_decompose(toks, i + 1, s);
                lemma_eps_reach_le(toks, i + 1, jk.0);
                jk
            } else {
                (i, i)
            }
        },
        TokenSpec::AnySeq => {
            if match_from(toks, i + 1, s) {
                let jk = lemma_accepts_decompose(toks, i + 1, s);
                lemma_eps_reach_le(toks, i + 1, jk.0);
                jk
            } else if i + 1 < toks.len() && toks[i + 1] == TokenSpec::Char('/') && match_from(
                toks,
                i + 2,
                s,
            ) {
                let jk = lemma_accepts_decompose(toks, i + 2, s);
                lemma_eps_reach_le(toks, i + 2, jk.0);
                jk
            } else {
                (i, i)
            }
        },
        _ => (i, i + 1),
    }
}

/// The empty input is accepted only by states that reach the final state.
proof fn lemma_accepts_empty(toks: Seq<TokenSpec>, i: int)
    requires
        0 <= i <= toks.len(),
        match_from(toks, i, Seq::<char>::empty()),
    ensures
        eps_reach(toks, i, toks.len() as int),
    decreases toks.len() - i,
{
    if i < toks.len() {
        let e = Seq::<char>::empty();
        if match_from(toks, i + 1, e) {
            lemma_accepts_empty(toks, i + 1);
        } else {
            lemma_accepts_empty(toks, i + 2);
        }
    }
}

/// One simulation step keeps the invariant: the states before the step
/// accept `s` exactly when the states after it accept `s.drop_first()`.
proof fn lemma_simulation_step(
    toks: Seq<TokenSpec>,
    act: Seq<bool>,
    next: Seq<bool>,
    closed: Seq<bool>,
    s: Seq<char>,
)
    requires
        s.len() > 0,
        act.len() == toks.len() + 1,
        next.len() == toks.len() + 1,
        closed.len() == toks.len() + 1,
        eps_closed(toks, act),
        forall|j: int, k: int|
            0 <= j < act.len() && act[j] && #[trigger] step(toks, j, s[0], k) ==> 0 <= k
                < next.len() && next[k],
        forall|k: int|
            0 <= k < next.len() && #[trigger] next[k] ==> exists|j: int|
                0 <= j < act.len() && act[j] && #[trigger] step(toks, j, s[0], k),
        forall|k: int| 0 <= k < next.len() && #[trigger] next[k] ==> closed[k],
        forall|m: int|
            0 <= m < closed.len() && #[trigger] closed[m] ==> exists|k: int|
                0 <= k < next.len() && next[k] && #[trigger] eps_reach(toks, k, m),
    ensures
        some_accepts(toks, act, s) == some_accepts(toks, closed, s.drop_first()),
{
    if some_accepts(toks, act, s) {
        let j = choose|j: int| 0 <= j < act.len() && #[trigger] act[j] && match_from(toks, j, s);
        let jk = lemma_accepts_decompose(toks, j, s);
        lemma_closed_reach(toks, act, j, jk.0);
        assert(next[jk.1]);
        assert(closed[jk.1]);
    }
    if some_accepts(toks, closed, s.drop_first()) {
        let m = choose|m: int|
            0 <= m < closed.len() && #[trigger] closed[m] && match_from(toks, m, s.drop_first());
        let k = choose|k: int| 0 <= k < next.len() && next[k] && #[trigger] eps_reach(toks, k, m);
        lemma_eps_accepts(toks, k, m, s.drop_first());
        let j = choose|j: int| 0 <= j < act.len() && act[j] && #[trigger] step(toks, j, s[0], k);
        lemma_step_accepts(toks, j, k, s);
        assert(act[j] && match_from(toks, j, s));
    }
}

fn is_separator_token(tok: &MatchToken) -> (b: bool)
    ensures
        b == (tok@ == TokenSpec::Char('/')),
{
    match tok {
        MatchToken::Char(c) => *c == '/',
        _ => false,
    }
}

/// Propagates zero-width transitions forward through `active`: afterwards
/// `active` contains its old states, is closed, and holds nothing that is not
/// reachable from an old state.
fn epsilon_close(active: &mut Vec<bool>, tokens: &[MatchToken])
    requires
        old(active).len() == tokens.len() + 1,
    ensures
        final(active).len() == old(active).len(),
        forall|j: int| 0 <= j < old(active).len() && old(active)[j] ==> #[trigger] final(active)[j],
        eps_closed(tokens_view(tokens@), final(active)@),
        forall|m: int|
            0 <= m < final(active).len() && #[trigger] final(active)@[m] ==> exists|k: int|
                0 <= k < old(active).len() && old(active)@[k] && #[trigger] eps_reach(
                    tokens_view(tokens@),
                    k,
                    m,
                ),
{
    let ghost toks = tokens_view(tokens@);
    let ghost start = active@;
    let n = tokens.len();
    let mut i: usize = 0;
    assert forall|m: int| 0 <= m < active.len() && #[trigger] active@[m] implies exists|k: int|
        0 <= k < start.len() && start[k] && #[trigger] eps_reach(toks, k, m) by {
        assert(eps_reach(toks, m, m));
    }
    while i < n
        invariant
            n == tokens.len(),
            toks == tokens_view(tokens@),
            i <= n,
            active.len() == n + 1,
            start.len() == n + 1,
            forall|j: int| 0 <= j < start.len() && start[j] ==> #[trigger] active@[j],
            forall|a: int, b: int|
                0 <= a < i && #[trigger] active@[a] && #[trigger] eps_edge(toks, a, b) ==> 0 <= b
                    < active.len() && active@[b],
            forall|m: int|
                0 <= m < active.len() && #[trigger] active@[m] ==> exists|k: int|
                    0 <= k < start.len() && start[k] && #[trigger] eps_reach(toks, k, m),
        decreases n - i,
    {
        if active[i] {
            let ghost before = active@;
            let ghost ki = choose|k: int| 0 <= k < start.len() && start[k] && #[trigger] eps_reach(toks, k, i as int);
            match &tokens[i] {
                MatchToken::AnySeqNoSeparator => {
                    proof {
                        lemma_eps_reach_extend(toks, ki, i as int, i + 1);
                    }
                    active.set(i + 1, true);
                },
                MatchToken::AnySeq => {
                    proof {
                        lemma_eps_reach_extend(toks, ki, i as int, i + 1);
                    }
                    active.set(i + 1, true);
                    if i + 1 < n && is_separator_token(&tokens[i + 1]) {
                        proof {
                            lemma_eps_reach_extend(toks, ki, i as int, i + 2);
                        }
                        active.set(i + 2, true);
                    }
                },
                _ => {},
            }
            assert forall|m: int| 0 <= m < active.len() && #[trigger] active@[m] implies exists|k: int|
                0 <= k < start.len() && start[k] && #[trigger] eps_reach(toks, k, m) by {
                if !before[m] {
                    assert(eps_reach(toks, ki, m));
                }
            }
        }
        i = i + 1;
    }
}

/// Matches `candidate` against compiled `tokens` using Nondeterministic Finite
/// Automaton (NFA) simulation: state `i` stands before token `i`, state
/// `tokens.len()` is the sole accepting state.  The result is exactly the glob
/// semantics [`glob_matches`].
pub fn wildcard_match(tokens: &[MatchToken], candidate: &str) -> (r: bool)
    requires
        tokens.len() < usize::MAX,
    ensures
        r == glob_matches(tokens_view(tokens@), candidate@),
{
    let ghost toks = tokens_view(tokens@);
    let n = tokens.len();
    let ghost s = candidate@;
    let mut active: Vec<bool> = Vec::new();
    let mut next: Vec<bool> = Vec::new();
    let mut z: usize = 0;
    while z <= n
        invariant
            z <= n + 1,
            n == tokens.len(),
            n < usize::MAX,
            active.len() == z,
            next.len() == z,
            forall|j: int| 0 <= j < z ==> !(#[trigger] active@[j]) && !next@[j],
        decreases n + 1 - z,
    {
        active.push(false);
        next.push(false);
        z = z + 1;
    }
    active.set(0, true);
    let ghost init = active@;
    epsilon_close(&mut active, tokens);
    proof {
        assert forall|j: int| 0 <= j < active.len() && #[trigger] active@[j] && match_from(
            toks,
            j,
            s,
        ) implies match_from(toks, 0, s) by {
            let k = choose|k: int| 0 <= k < init.len() && init[k] && #[trigger] eps_reach(toks, k, j);
            assert(k == 0);
            lemma_eps_accepts(toks, 0, j, s);
        }
        assert(s.skip(0) =~= s);
        if match_from(toks, 0, s) {
            assert(active@[0]);
        }
    }
    for c in it: candidate.chars()
        invariant
            n == tokens.len(),
            toks == tokens_view(tokens@),
            it.seq() == s,
            s == candidate@,
            n < usize::MAX,
            active.len() == n + 1,
            next.len() == n + 1,
            eps_closed(toks, active@),
            glob_matches(toks, s) == some_accepts(toks, active@, s.skip(it.index() as int)),
    {
        let ghost k = it.index() as int;
        let mut z: usize = 0;
        while z <= n
            invariant
                z <= n + 1,
                n < usize::MAX,
                next.len() == n + 1,
                forall|j: int| 0 <= j < z ==> !(#[trigger] next@[j]),
            decreases n + 1 - z,
        {
            next.set(z, false);
            z = z + 1;
        }
        let mut i: usize = 0;
        while i < n
            invariant
                n == tokens.len(),
                toks == tokens_view(tokens@),
                i <= n,
                active.len() == n + 1,
                next.len() == n + 1,
                forall|j: int, q: int|
                    0 <= j < i && active@[j] && #[trigger] step(toks, j, c, q) ==> 0 <= q
                        < next.len() && next@[q],
                forall|q: int|
                    0 <= q < next.len() && #[trigger] next@[q] ==> exists|j: int|
                        0 <= j < i && active@[j] && #[trigger] step(toks, j, c, q),
            decreases n - i,
        {
            if active[i] {
                let ghost before = next@;
                match &tokens[i] {
                    MatchToken::Char(ch) => {
                        if c == *ch {
                            next.set(i + 1, true);
                        }
                    },
                    MatchToken::AnyChar => {
                        if c != '/' {
                            next.set(i + 1, true);
                        }
                    },
                    MatchToken::CharSet(set) => {
                        if set.contains(&(c as u32)) {
                            next.set(i + 1, true);
                        }
                    },
                    MatchToken::NegatedSet(set) => {
                        if c != '/' && !set.contains(&(c as u32)) {
                            next.set(i + 1, true);
                        }
                    },
                    MatchToken::AnySeqNoSeparator => {
                        if c != '/' {
                            next.set(i, true);
                        }
                    },
                    MatchToken::AnySeq => {
                        next.set(i, true);
                    },
                }
                assert forall|q: int| 0 <= q < next.len() && #[trigger] next@[q] implies exists|j: int|
                    0 <= j < i + 1 && active@[j] && #[trigger] step(toks, j, c, q) by {
                    if !before[q] {
                        assert(step(toks, i as int, c, q));
                    }
                }
            }
            i = i + 1;
        }
        let ghost stepped = next@;
        epsilon_close(&mut next, tokens);
        proof {
            let r = s.skip(k);
            assert(r[0] == c);
            assert(r.drop_first() =~= s.skip(k + 1));
            lemma_simulation_step(toks, active@, stepped, next@, r);
        }
        std::mem::swap(&mut active, &mut next);
    }
    let res = active[n];
    proof {
        let e = s.skip(s.len() as int);
        assert(e =~= Seq::<char>::empty());
        if some_accepts(toks, active@, e) {
            let j = choose|j: int| 0 <= j < active.len() && #[trigger] active@[j] && match_from(toks, j, e);
            lemma_accepts_empty(toks, j);
            lemma_closed_reach(toks, active@, j, n as int);
        }
        if res {
            assert(match_from(toks, n as int, e));
        }
    }
    res
}

} // verus!
