// The primary public API surface of flexiglob.  GlobberBuilder holds the
// operator registry and compiles pattern strings into Globber instances.
// Globber runs the compiled pattern against a caller-supplied candidate slice,
// applying the registered operators in pipeline order.  ScanHint tells callers
// the minimum filesystem root and traversal depth needed to build a complete
// candidate set for a given pattern.

use crate::compile::new_error;
use crate::error::{error_spec, ErrorSpec, KindSpec, ParseError, ParseErrorKind};
use crate::matcher::{glob_matches, wildcard_match};
use crate::operator::GlobOperator;
use crate::parser::{faithful, parse_view, spec_parse, ParsedPattern, PatternSpec};
use crate::token::{tokens_view, MatchToken, TokenSpec};
use std::rc::Rc;
use vstd::prelude::*;

verus! {

/// Filesystem traversal hint produced by [`Globber::scan_hint`].
#[derive(Debug, Clone, PartialEq, Eq)]
pub struct ScanHint<'a> {
    /// Static path prefix before the first wildcard — the minimum root to scan.
    pub root: &'a str,
    /// True when the pattern contains `**`, requiring recursive traversal.
    pub is_recursive: bool,
    /// True when the pattern contains no wildcards — `root` is an exact path.
    pub is_literal: bool,
}

/// A registered operator: its name and the operator itself.
#[verifier::reject_recursive_types(T)]
pub struct OperatorEntry<'a, T> {
    pub name: String,
    pub op: Box<dyn GlobOperator<T> + 'a>,
}

/// The names of the registered operators, in registration order.
pub open spec fn entry_names<'a, T>(entries: Seq<OperatorEntry<'a, T>>) -> Seq<Seq<char>> {
    entries.map_values(|e: OperatorEntry<'a, T>| e.name@)
}

/// The operator names of a pattern all satisfy `valid`.
pub open spec fn ops_valid(p: PatternSpec, valid: spec_fn(Seq<char>) -> bool) -> bool
    decreases p,
{
    match p {
        PatternSpec::Leaf { .. } => true,
        PatternSpec::Operator { name, inner } => valid(name) && ops_valid(*inner, valid),
    }
}

/// The predicate "is one of `names`".
pub open spec fn registered(names: Seq<Seq<char>>) -> spec_fn(Seq<char>) -> bool {
    |s: Seq<char>| names.contains(s)
}

/// The message of a duplicate registration of `name`.
pub open spec fn duplicate_message(name: Seq<char>) -> Seq<char> {
    "operator '"@ + name + "' is already registered"@
}

/// Registering an operator named `name` took the names `before` to `after`
/// with the outcome `r`: a new name is appended, a known one is refused.
pub open spec fn registration(
    before: Seq<Seq<char>>,
    after: Seq<Seq<char>>,
    r: Result<(), ParseError>,
    name: Seq<char>,
) -> bool {
    match r {
        Ok(()) => !before.contains(name) && after == before.push(name),
        Err(e) => before.contains(name) && after == before && e@ == error_spec(
            KindSpec::DuplicateOperator(name),
            0,
            0,
            duplicate_message(name),
        ),
    }
}

/// Registering an operator named `name` took the entries `before` to
/// `after` with the outcome `r`: on success one entry carrying `name` is
/// appended behind the untouched earlier ones, on failure the entries
/// (and so the operator registered first) stay as they were.
pub open spec fn entry_registration<'a, T>(
    before: Seq<OperatorEntry<'a, T>>,
    after: Seq<OperatorEntry<'a, T>>,
    r: Result<(), ParseError>,
    name: Seq<char>,
) -> bool {
    match r {
        Ok(()) => after.len() == before.len() + 1 && after.drop_last() == before
            && after.last().name@ == name,
        Err(_) => after == before,
    }
}

/// `e` holds `op`: its operator admits exactly the before/after lists that
/// `op` admits.
pub open spec fn holds<'a, T, O: GlobOperator<T>>(e: OperatorEntry<'a, T>, op: O) -> bool {
    forall|before: Seq<T>, after: Seq<T>|
        #[trigger] e.op.transforms(before, after) == op.transforms(before, after)
}

/// `Box::new(op)`, coerced to the trait object `Box<dyn GlobOperator<T>>`,
/// stored with `name`.  A trait object dispatches every method to `op`'s own
/// impl, so the stored operator admits the same before/after lists as `op`.
#[verifier::external_body]
fn make_entry<'a, T, O: GlobOperator<T> + 'a>(name: String, op: O) -> (e: OperatorEntry<'a, T>)
    ensures
        e.name == name,
        holds(e, op),
{
    OperatorEntry { name, op: Box::new(op) }
}

/// The entries behind shared pointers.
pub open spec fn unshared<'a, T>(v: Seq<Rc<OperatorEntry<'a, T>>>) -> Seq<OperatorEntry<'a, T>> {
    v.map_values(|r: Rc<OperatorEntry<'a, T>>| *r)
}

/// `Rc::clone`: another pointer to the same entry.
#[verifier::external_body]
fn share<'a, T>(r: &Rc<OperatorEntry<'a, T>>) -> (s: Rc<OperatorEntry<'a, T>>)
    ensures
        *s == **r,
{
    r.clone()
}

proof fn lemma_unshared_push<'a, T>(v: Seq<Rc<OperatorEntry<'a, T>>>, x: Rc<OperatorEntry<'a, T>>)
    ensures
        unshared(v.push(x)) == unshared(v).push(*x),
{
    assert(unshared(v.push(x)) =~= unshared(v).push(*x));
}

/// The matching and operator execution engine builder registry.
#[verifier::reject_recursive_types(T)]
pub struct GlobberBuilder<'a, T> {
    operators: Vec<Rc<OperatorEntry<'a, T>>>,
}

impl<'a, T> View for GlobberBuilder<'a, T> {
    type V = Seq<OperatorEntry<'a, T>>;

    /// The registered operators with their names, in registration order.
    closed spec fn view(&self) -> Seq<OperatorEntry<'a, T>> {
        unshared(self.operators@)
    }
}

proof fn lemma_names_push<'a, T>(ops: Seq<OperatorEntry<'a, T>>, e: OperatorEntry<'a, T>)
    ensures
        entry_names(ops.push(e)) == entry_names(ops).push(e.name@),
{
    assert(entry_names(ops.push(e)) =~= entry_names(ops).push(e.name@));
}

proof fn lemma_push_last<A>(s: Seq<A>, x: A)
    ensures
        s.push(x).len() == s.len() + 1,
        s.push(x).drop_last() == s,
        s.push(x).last() == x,
{
    assert(s.push(x).drop_last() =~= s);
}

proof fn lemma_push_distinct(s: Seq<Seq<char>>, x: Seq<char>)
    requires
        s.no_duplicates(),
        !s.contains(x),
    ensures
        s.push(x).no_duplicates(),
{
    assert forall|i: int, j: int|
        0 <= i < s.push(x).len() && 0 <= j < s.push(x).len() && i != j implies s.push(x)[i]
        != s.push(x)[j] by {
        if i == s.len() {
            assert(s[j] == s.push(x)[j]);
        } else if j == s.len() {
            assert(s[i] == s.push(x)[i]);
        }
    }
}

/// Finds the entry named `name`.
fn position_of<'a, T>(entries: &Vec<Rc<OperatorEntry<'a, T>>>, name: &String) -> (r: Option<usize>)
    ensures
        match r {
            Some(i) => i < entries.len() && entry_names(unshared(entries@))[i as int] == name@,
            None => !entry_names(unshared(entries@)).contains(name@),
        },
{
    let mut i: usize = 0;
    while i < entries.len()
        invariant
            i <= entries.len(),
            forall|k: int| 0 <= k < i ==> entry_names(unshared(entries@))[k] != name@,
        decreases entries.len() - i,
    {
        if entries[i].name == *name {
            return Some(i);
        }
        i = i + 1;
    }
    assert forall|k: int| 0 <= k < entry_names(unshared(entries@)).len() implies entry_names(
        unshared(entries@),
    )[k] != name@ by {}
    None
}

impl<'a, T> GlobberBuilder<'a, T> {
    #[verifier::type_invariant]
    closed spec fn names_distinct(&self) -> bool {
        entry_names(unshared(self.operators@)).no_duplicates()
    }

    /// The registered operators with their names, in registration order.
    pub open spec fn entries(&self) -> Seq<OperatorEntry<'a, T>> {
        self@
    }

    /// The names of the registered operators, in registration order.
    pub open spec fn op_names(&self) -> Seq<Seq<char>> {
        entry_names(self@)
    }

    /// Constructs a new, empty builder registry context.
    pub fn new() -> (r: Self)
        ensures
            r.op_names() == Seq::<Seq<char>>::empty(),
            r.entries() == Seq::<OperatorEntry<'a, T>>::empty(),
    {
        let r = GlobberBuilder { operators: Vec::new() };
        assert(entry_names(unshared(r.operators@)) =~= Seq::<Seq<char>>::empty());
        r
    }

    /// Registers a custom pipeline operator under the name its `name()`
    /// returns.
    ///
    /// Returns `Err` (and registers nothing) if an operator with the same name
    /// is already registered.
    pub fn register_operator<O: GlobOperator<T> + 'a>(&mut self, op: O) -> (r: Result<(), ParseError>)
        ensures
            exists|name: &str|
                call_ensures(O::name, (&op,), name) && #[trigger] registration(
                    old(self).op_names(),
                    final(self).op_names(),
                    r,
                    name@,
                ) && entry_registration(old(self).entries(), final(self).entries(), r, name@),
            r is Ok ==> holds(final(self).entries().last(), op),
    {
        proof {
            use_type_invariant(&*self);
        }
        let reported = op.name();
        let ghost reported_ghost = reported;
        let name = String::from_str(reported);
        let ghost name_v = name@;
        let r = match position_of(&self.operators, &name) {
            Some(i) => {
                let mut message = String::from_str("operator '");
                message.append(name.as_str());
                message.append("' is already registered");
                proof {
                    assert(entry_names(unshared(self.operators@))[i as int] == name_v);
                }
                let e = new_error(ParseErrorKind::DuplicateOperator(name), 0, 0, message);
                assert(e@ == error_spec(KindSpec::DuplicateOperator(name_v), 0, 0, duplicate_message(name_v)));
                let r: Result<(), ParseError> = Err(e);
                assert(old(self).op_names().contains(name_v));
                r
            },
            None => {
                let ghost before = entry_names(unshared(self.operators@));
                let mut ops: Vec<Rc<OperatorEntry<'a, T>>> = Vec::new();
                std::mem::swap(&mut ops, &mut self.operators);
                let ghost prev_ops = ops@;
                let entry = make_entry(name, op);
                let ghost e = entry;
                let shared = Rc::new(entry);
                ops.push(shared);
                proof {
                    lemma_unshared_push(prev_ops, shared);
                    lemma_names_push(unshared(prev_ops), e);
                    lemma_push_distinct(before, name_v);
                }
                self.operators = ops;
                proof {
                    lemma_push_last(unshared(prev_ops), e);
                }
                Ok(())
            },
        };
        assert(registration(old(self).op_names(), self.op_names(), r, reported_ghost@));
        assert(entry_registration(old(self).entries(), self.entries(), r, reported_ghost@));
        r
    }

    /// Builder-style custom operator registration.
    ///
    /// An operator with the same name must not be registered yet: the
    /// registration is then sure to succeed.  Use
    /// [`register_operator`](Self::register_operator) for dynamic registration
    /// where a `Result` is preferable.
    pub fn with_operator<O: GlobOperator<T> + 'a>(self, op: O) -> (r: Self)
        requires
            forall|name: &str| call_ensures(O::name, (&op,), name) ==> !self.op_names().contains(name@),
        ensures
            exists|name: &str|
                call_ensures(O::name, (&op,), name) && #[trigger] r.op_names() == self.op_names().push(name@)
                    && entry_registration(self.entries(), r.entries(), Ok(()), name@),
            holds(r.entries().last(), op),
    {
        let mut builder = self;
        let res = builder.register_operator(op);
        proof {
            let name = choose|name: &str|
                call_ensures(O::name, (&op,), name) && #[trigger] registration(
                    self.op_names(),
                    builder.op_names(),
                    res,
                    name@,
                ) && entry_registration(self.entries(), builder.entries(), res, name@);
            assert(builder.op_names() == self.op_names().push(name@));
            assert(res is Ok);
            assert(entry_registration(self.entries(), builder.entries(), Ok(()), name@));
        }
        res.expect("operator name already registered");
        builder
    }

    /// Further pointers to every registered entry, in order.
    fn share_operators(&self) -> (r: Vec<Rc<OperatorEntry<'a, T>>>)
        ensures
            unshared(r@) == self.entries(),
    {
        let mut out: Vec<Rc<OperatorEntry<'a, T>>> = Vec::new();
        let mut i: usize = 0;
        while i < self.operators.len()
            invariant
                i <= self.operators.len(),
                unshared(out@) == unshared(self.operators@).take(i as int),
            decreases self.operators.len() - i,
        {
            let s = share(&self.operators[i]);
            proof {
                lemma_unshared_push(out@, s);
                assert(unshared(self.operators@).take(i + 1) =~= unshared(self.operators@).take(
                    i as int,
                ).push(*s));
            }
            out.push(s);
            i = i + 1;
        }
        assert(unshared(self.operators@).take(i as int) =~= unshared(self.operators@));
        out
    }

    /// Compiles a pattern string and validates that every operator name in it
    /// is registered.  The builder is left as it was, ready for more patterns.
    pub fn compile(&self, pattern: &str) -> (r: Result<Globber<'a, T>, ParseError>)
        ensures
            match r {
                Ok(g) => g.op_names() == self.op_names() && g.entries() == self.entries() && spec_parse(
                    pattern@,
                    0,
                    pattern@.len() as int,
                    registered(self.op_names()),
                ) == Ok::<PatternSpec, ErrorSpec>(g.pattern_spec()),
                Err(e) => spec_parse(pattern@, 0, pattern@.len() as int, registered(self.op_names()))
                    == Err::<PatternSpec, ErrorSpec>(e@),
            },
    {
        let ghost names = self.op_names();
        let parsed = {
            let entries = &self.operators;
            let is_valid = |op: &str| -> (b: bool)
                ensures
                    b == entry_names(unshared(entries@)).contains(op@),
                {
                    let owned = String::from_str(op);
                    position_of(entries, &owned).is_some()
                };
            let r = ParsedPattern::parse(pattern, is_valid);
            proof {
                assert(faithful(&is_valid, registered(names)));
            }
            r
        };
        match parsed {
            Ok(p) => {
                proof {
                    use_type_invariant(self);
                    lemma_parse_ok(pattern@, 0, pattern@.len() as int, registered(names));
                }
                let operators = self.share_operators();
                Ok(Globber { pattern: p, operators })
            },
            Err(e) => Err(e),
        }
    }
}

impl<'a, T> Default for GlobberBuilder<'a, T> {
    fn default() -> (r: Self)
        ensures
            r.op_names() == Seq::<Seq<char>>::empty(),
    {
        Self::new()
    }
}

/// A successfully parsed pattern names only operators that satisfy the
/// validator it was parsed with, and its leaf has at most one token per
/// character of the window.
pub proof fn lemma_parse_ok(cs: Seq<char>, lo: int, hi: int, valid: spec_fn(Seq<char>) -> bool)
    ensures
        spec_parse(cs, lo, hi, valid) matches Ok(p) ==> ops_valid(p, valid) && leaf_of(p).1.len()
            <= hi - lo,
    decreases hi - lo,
{
    let tl = crate::text::trim_lo(cs, lo, hi);
    let th = crate::text::trim_hi(cs, tl, hi);
    if lo <= hi && tl < th {
        crate::parser::lemma_trim_lo(cs, lo, hi);
        crate::parser::lemma_trim_hi(cs, tl, hi);
        crate::parser::lemma_op_syntax_bounds(cs, tl, th);
        match crate::parser::op_syntax(cs, tl, th) {
            crate::parser::OpSyntax::Operator { name_end, open, close } => {
                lemma_parse_ok(cs, open + 1, close, valid);
            },
            crate::parser::OpSyntax::NotOperator => {
                crate::compile::lemma_scan_tokens_len(cs, tl, th);
            },
            _ => {},
        }
    }
}

/// The indices `i < n` whose name matches the tokens, in increasing order.
pub open spec fn kept_indices(toks: Seq<TokenSpec>, names: Seq<Seq<char>>, n: int) -> Seq<int>
    decreases n,
{
    if n <= 0 {
        seq![]
    } else if glob_matches(toks, names[n - 1]) {
        kept_indices(toks, names, n - 1).push(n - 1)
    } else {
        kept_indices(toks, names, n - 1)
    }
}

/// `out` holds clones of `cands` at the indices `idx`, in that order.
pub open spec fn is_selection<T: Clone>(out: Seq<T>, cands: Seq<T>, idx: Seq<int>) -> bool {
    &&& out.len() == idx.len()
    &&& forall|j: int| 0 <= j < idx.len() ==> cloned(cands[#[trigger] idx[j]], out[j])
}

/// The candidates whose name matches the tokens: clones, in candidate order.
pub open spec fn leaf_result<T: Clone>(
    out: Seq<T>,
    cands: Seq<T>,
    toks: Seq<TokenSpec>,
    names: Seq<Seq<char>>,
) -> bool {
    &&& names.len() == cands.len()
    &&& is_selection(out, cands, kept_indices(toks, names, cands.len() as int))
}

/// Asks `get_name` for the name of every candidate.
fn candidate_names<'c, T, G: Fn(&T) -> &str>(candidates: &'c [T], get_name: &G) -> (names: Vec<
    &'c str,
>)
    requires
        forall|t: &T| #[trigger] get_name.requires((t,)),
    ensures
        names.len() == candidates.len(),
        forall|i: int|
            0 <= i < candidates.len() ==> get_name.ensures((&candidates@[i],), #[trigger] names@[i]),
{
    let mut names: Vec<&'c str> = Vec::new();
    let mut i: usize = 0;
    while i < candidates.len()
        invariant
            i <= candidates.len(),
            names.len() == i,
            forall|t: &T| #[trigger] get_name.requires((t,)),
            forall|k: int|
                0 <= k < i ==> get_name.ensures((&candidates@[k],), #[trigger] names@[k]),
        decreases candidates.len() - i,
    {
        let s = get_name(&candidates[i]);
        names.push(s);
        i = i + 1;
    }
    names
}

/// The views of a sequence of names.
pub open spec fn names_view(names: Seq<&str>) -> Seq<Seq<char>> {
    names.map_values(|s: &str| s@)
}

/// Clones, in order, the candidates whose name matches `tokens`.
fn select_matching<T: Clone>(tokens: &[MatchToken], candidates: &[T], names: &Vec<&str>) -> (out:
    Vec<T>)
    requires
        names.len() == candidates.len(),
        tokens.len() < usize::MAX,
    ensures
        leaf_result(out@, candidates@, tokens_view(tokens@), names_view(names@)),
{
    let ghost toks = tokens_view(tokens@);
    let ghost nv = names_view(names@);
    let mut out: Vec<T> = Vec::new();
    let mut i: usize = 0;
    while i < candidates.len()
        invariant
            i <= candidates.len(),
            names.len() == candidates.len(),
            tokens.len() < usize::MAX,
            toks == tokens_view(tokens@),
            nv == names_view(names@),
            is_selection(out@, candidates@, kept_indices(toks, nv, i as int)),
        decreases candidates.len() - i,
    {
        if wildcard_match(tokens, names[i]) {
            let c = candidates[i].clone();
            out.push(c);
        }
        proof {
            let prev = kept_indices(toks, nv, i as int);
            let now = kept_indices(toks, nv, i + 1);
            assert(nv[i as int] == names@[i as int]@);
            assert forall|j: int| 0 <= j < now.len() implies cloned(
                candidates@[#[trigger] now[j]],
                out@[j],
            ) by {
                if j < prev.len() {
                    assert(now[j] == prev[j]);
                }
            }
        }
        i = i + 1;
    }
    out
}

/// The operator names of a pattern, innermost first: the order in which
/// the operators run.
pub open spec fn op_chain(p: PatternSpec) -> Seq<Seq<char>>
    decreases p,
{
    match p {
        PatternSpec::Leaf { .. } => seq![],
        PatternSpec::Operator { name, inner } => op_chain(*inner).push(name),
    }
}

/// The operator registered under `name` may turn `before` into `after`.
pub open spec fn runs_as<'a, T>(
    ops: Seq<OperatorEntry<'a, T>>,
    name: Seq<char>,
    before: Seq<T>,
    after: Seq<T>,
) -> bool {
    exists|k: int|
        0 <= k < ops.len() && ops[k].name@ == name && #[trigger] ops[k].op.transforms(
            before,
            after,
        )
}

/// `stages` are the lists of a run of the operators `chain`: the first is
/// the wildcard step's result, and each next one is what the next operator
/// of the chain made of the one before.
pub open spec fn pipeline<'a, T>(
    ops: Seq<OperatorEntry<'a, T>>,
    chain: Seq<Seq<char>>,
    stages: Seq<Seq<T>>,
) -> bool {
    &&& stages.len() == chain.len() + 1
    &&& forall|i: int|
        #![trigger chain[i]]
        0 <= i < chain.len() ==> runs_as(ops, chain[i], stages[i], stages[i + 1])
}

/// A run of the pattern `p` with the operators `ops` on `cands` gave `out`:
/// `names` are what `get_name` gave for the candidates, `stages[0]` is the
/// wildcard step's result, the operators run innermost first, and `out` is
/// the last stage.
pub open spec fn evaluation<'a, T: Clone, G: Fn(&T) -> &str>(
    ops: Seq<OperatorEntry<'a, T>>,
    p: PatternSpec,
    get_name: G,
    cands: Seq<T>,
    names: Seq<&str>,
    stages: Seq<Seq<T>>,
    out: Seq<T>,
) -> bool {
    &&& names.len() == cands.len()
    &&& forall|i: int|
        0 <= i < cands.len() ==> get_name.ensures((&cands[i],), #[trigger] names[i])
    &&& pipeline(ops, op_chain(p), stages)
    &&& leaf_result(stages[0], cands, leaf_of(p).1, names_view(names))
    &&& out == stages.last()
}

/// The label reported for stage `i` of a run of `p`.
pub open spec fn stage_label(p: PatternSpec, i: int) -> Seq<char> {
    if i == 0 {
        "Leaf matched '"@ + leaf_of(p).0 + "'"@
    } else {
        "Applied operator '"@ + op_chain(p)[i - 1] + "'"@
    }
}

/// `trace` was called with the label `label` and the list `items`.
pub open spec fn reported<T, Tr: Fn(&str, &[T])>(trace: Tr, label: Seq<char>, items: Seq<T>) -> bool {
    exists|s: &str, it: &[T]| s@ == label && it@ == items && #[trigger] trace.ensures((s, it), ())
}

/// Every stage of a run of `p` was reported to `trace` under its label.
pub open spec fn traced<T, Tr: Fn(&str, &[T])>(trace: Tr, p: PatternSpec, stages: Seq<Seq<T>>) -> bool {
    forall|i: int| 0 <= i < stages.len() ==> reported(trace, stage_label(p, i), #[trigger] stages[i])
}

/// One more operator stage: a run of `inner` followed by the operator
/// `name` is a run of `Operator { name, inner }`.
proof fn lemma_operator_run<'a, T: Clone, G: Fn(&T) -> &str, Tr: Fn(&str, &[T])>(
    ops: Seq<OperatorEntry<'a, T>>,
    p: PatternSpec,
    get_name: G,
    trace: Tr,
    cands: Seq<T>,
    names: Seq<&str>,
    stages: Seq<Seq<T>>,
    out: Seq<T>,
)
    requires
        p is Operator,
        evaluation(ops, *p->inner, get_name, cands, names, stages, stages.last()),
        traced(trace, *p->inner, stages),
        runs_as(ops, p->name, stages.last(), out),
        reported(trace, stage_label(p, stages.len() as int), out),
    ensures
        evaluation(ops, p, get_name, cands, names, stages.push(out), out),
        traced(trace, p, stages.push(out)),
{
    let inner = *p->inner;
    let chain = op_chain(p);
    let st = stages.push(out);
    assert(chain == op_chain(inner).push(p->name));
    assert(leaf_of(p) == leaf_of(inner));
    assert forall|i: int| #![trigger chain[i]] 0 <= i < chain.len() implies runs_as(
        ops,
        chain[i],
        st[i],
        st[i + 1],
    ) by {
        if i < op_chain(inner).len() {
            assert(op_chain(inner)[i] == chain[i]);
        }
    }
    assert forall|i: int| 0 <= i < st.len() implies reported(
        trace,
        stage_label(p, i),
        #[trigger] st[i],
    ) by {
        if i < stages.len() {
            assert(st[i] == stages[i]);
            if i > 0 {
                assert(op_chain(inner)[i - 1] == chain[i - 1]);
            }
            assert(stage_label(p, i) == stage_label(inner, i));
        }
    }
}

/// The compiled matching and operator execution engine.
#[verifier::reject_recursive_types(T)]
pub struct Globber<'a, T> {
    pattern: ParsedPattern,
    operators: Vec<Rc<OperatorEntry<'a, T>>>,
}

/// The wildcard leaf of a pattern: its text and its tokens.
pub open spec fn leaf_of(p: PatternSpec) -> (Seq<char>, Seq<TokenSpec>)
    decreases p,
{
    match p {
        PatternSpec::Leaf { pattern, tokens } => (pattern, tokens),
        PatternSpec::Operator { inner, .. } => leaf_of(*inner),
    }
}

/// Index of the first unescaped wildcard character (`*`, `?` or `[`) of
/// `p[i..]`; a backslash hides the character after it.
pub open spec fn first_wildcard(p: Seq<char>, i: int) -> Option<int>
    decreases p.len() - i,
{
    if i >= p.len() {
        None
    } else if p[i] == '\\' {
        if i + 1 < p.len() {
            first_wildcard(p, i + 2)
        } else {
            None
        }
    } else if p[i] == '*' || p[i] == '?' || p[i] == '[' {
        Some(i)
    } else {
        first_wildcard(p, i + 1)
    }
}

/// Index of the last `/` of `p[..end]`.
pub open spec fn last_separator(p: Seq<char>, end: int) -> Option<int>
    decreases end,
{
    if end <= 0 {
        None
    } else if p[end - 1] == '/' {
        Some(end - 1)
    } else {
        last_separator(p, end - 1)
    }
}

/// The static prefix of a wildcard string: the whole string when it has no
/// wildcard, otherwise everything up to and including the last `/` before
/// its first wildcard.
pub open spec fn scan_root(p: Seq<char>) -> Seq<char> {
    match first_wildcard(p, 0) {
        None => p,
        Some(w) => match last_separator(p, w) {
            None => Seq::empty(),
            Some(sep) => p.take(sep + 1),
        },
    }
}

impl<'a, T> Globber<'a, T> {
    #[verifier::type_invariant]
    closed spec fn operators_known(&self) -> bool {
        &&& ops_valid(self.pattern@, registered(entry_names(unshared(self.operators@))))
        &&& leaf_of(self.pattern@).1.len() < usize::MAX
        &&& entry_names(unshared(self.operators@)).no_duplicates()
    }

    /// The operators the globber can run, with their names, in registration
    /// order.
    pub closed spec fn entries(&self) -> Seq<OperatorEntry<'a, T>> {
        unshared(self.operators@)
    }

    /// The compiled pattern.
    pub closed spec fn pattern_spec(&self) -> PatternSpec {
        self.pattern@
    }

    /// The names of the operators the globber can run.
    pub closed spec fn op_names(&self) -> Seq<Seq<char>> {
        entry_names(unshared(self.operators@))
    }

    /// Evaluates the compiled pattern against a candidate list: the
    /// candidates whose name matches the leaf wildcard, cloned and in their
    /// order, then each operator from the innermost outwards.
    pub fn run<G: Fn(&T) -> &str>(&self, candidates: &[T], get_name: G) -> (r: Vec<T>) where
        T: Clone,

        requires
            forall|t: &T| #[trigger] get_name.requires((t,)),
        ensures
            exists|names: Seq<&str>, stages: Seq<Seq<T>>|
                #[trigger] evaluation(
                    self.entries(),
                    self.pattern_spec(),
                    get_name,
                    candidates@,
                    names,
                    stages,
                    r@,
                ),
            entry_names(self.entries()).no_duplicates(),
    {
        let noop = |label: &str, items: &[T]| {};
        self.run_with_trace(candidates, get_name, &noop)
    }

    /// Evaluates the compiled pattern as [`run`](Self::run) does, and reports
    /// every stage to `trace`: `Leaf matched '<pattern>'` after the wildcard
    /// step, then `Applied operator '<name>'` after each operator.
    pub fn run_with_trace<G: Fn(&T) -> &str, Tr: Fn(&str, &[T])>(
        &self,
        candidates: &[T],
        get_name: G,
        trace: &Tr,
    ) -> (r: Vec<T>) where T: Clone
        requires
            forall|t: &T| #[trigger] get_name.requires((t,)),
            forall|s: &str, items: &[T]| #[trigger] trace.requires((s, items)),
        ensures
            exists|names: Seq<&str>, stages: Seq<Seq<T>>|
                #[trigger] evaluation(
                    self.entries(),
                    self.pattern_spec(),
                    get_name,
                    candidates@,
                    names,
                    stages,
                    r@,
                ) && traced(*trace, self.pattern_spec(), stages),
            entry_names(self.entries()).no_duplicates(),
    {
        proof {
            use_type_invariant(self);
        }
        let r = self.run_inner(&self.pattern, candidates, &get_name, trace);
        proof {
            let (names, stages) = choose|names: Seq<&str>, stages: Seq<Seq<T>>|
                #[trigger] evaluation(
                    unshared(self.operators@),
                    self.pattern@,
                    get_name,
                    candidates@,
                    names,
                    stages,
                    r@,
                ) && traced(*trace, self.pattern@, stages);
            assert(evaluation(
                self.entries(),
                self.pattern_spec(),
                get_name,
                candidates@,
                names,
                stages,
                r@,
            ));
        }
        r
    }

    fn run_inner<G: Fn(&T) -> &str, Tr: Fn(&str, &[T])>(
        &self,
        pattern: &ParsedPattern,
        candidates: &[T],
        get_name: &G,
        trace: &Tr,
    ) -> (r: Vec<T>) where T: Clone
        requires
            ops_valid(pattern@, registered(entry_names(unshared(self.operators@)))),
            leaf_of(pattern@).1.len() < usize::MAX,
            forall|t: &T| #[trigger] get_name.requires((t,)),
            forall|s: &str, items: &[T]| #[trigger] trace.requires((s, items)),
        ensures
            exists|names: Seq<&str>, stages: Seq<Seq<T>>|
                #[trigger] evaluation(
                    unshared(self.operators@),
                    pattern@,
                    *get_name,
                    candidates@,
                    names,
                    stages,
                    r@,
                ) && traced(*trace, pattern@, stages),
        decreases pattern,
    {
        match pattern {
            ParsedPattern::Leaf { pattern: text, tokens } => {
                let names = candidate_names(candidates, get_name);
                let matched = select_matching(tokens.as_slice(), candidates, &names);
                let mut label = String::from_str("Leaf matched '");
                label.append(text.as_str());
                label.append("'");
                trace(label.as_str(), matched.as_slice());
                proof {
                    let stages = seq![matched@];
                    assert(label@ == stage_label(pattern@, 0));
                    assert(reported(*trace, stage_label(pattern@, 0), stages[0]));
                    assert(evaluation(
                        unshared(self.operators@),
                        pattern@,
                        *get_name,
                        candidates@,
                        names@,
                        stages,
                        matched@,
                    ));
                    assert(traced(*trace, pattern@, stages));
                }
                matched
            },
            ParsedPattern::Operator { name, inner } => {
                let mut matched = self.run_inner(inner, candidates, get_name, trace);
                let ghost (names_in, stages_in) = choose|names: Seq<&str>, stages: Seq<Seq<T>>|
                    #[trigger] evaluation(
                        unshared(self.operators@),
                        inner@,
                        *get_name,
                        candidates@,
                        names,
                        stages,
                        matched@,
                    ) && traced(*trace, inner@, stages);
                let ghost before = matched@;
                match position_of(&self.operators, name) {
                    Some(i) => {
                        self.operators[i].op.apply(&mut matched);
                        proof {
                            assert(runs_as(unshared(self.operators@), name@, before, matched@)) by {
                                assert(unshared(self.operators@)[i as int].op.transforms(before, matched@));
                            }
                        }
                    },
                    None => {
                        proof {
                            assert(registered(entry_names(unshared(self.operators@)))(name@));
                            assert(false);
                        }
                    },
                }
                let mut label = String::from_str("Applied operator '");
                label.append(name.as_str());
                label.append("'");
                trace(label.as_str(), matched.as_slice());
                proof {
                    lemma_operator_run(
                        unshared(self.operators@),
                        pattern@,
                        *get_name,
                        *trace,
                        candidates@,
                        names_in,
                        stages_in,
                        matched@,
                    );
                    assert(label@ == stage_label(pattern@, stages_in.len() as int));
                }
                matched
            },
        }
    }

    /// Returns a `ScanHint` describing the minimum filesystem traversal needed
    /// to build a complete candidate set for this pattern.  Operator wrappers
    /// are transparent: the hint describes the wildcard leaf.
    pub fn scan_hint(&self) -> (h: ScanHint<'_>)
        ensures
            h.root@ == scan_root(leaf_of(self.pattern_spec()).0),
            h.is_recursive == leaf_of(self.pattern_spec()).1.contains(TokenSpec::AnySeq),
            h.is_literal == (forall|k: int|
                0 <= k < leaf_of(self.pattern_spec()).1.len() ==> #[trigger] leaf_of(
                    self.pattern_spec(),
                ).1[k] is Char),
    {
        let (pattern, tokens) = Self::find_leaf(&self.pattern);
        let root = root_of(pattern);
        let mut recursive = false;
        let mut literal = true;
        let mut i: usize = 0;
        while i < tokens.len()
            invariant
                i <= tokens.len(),
                recursive == tokens_view(tokens@).take(i as int).contains(TokenSpec::AnySeq),
                literal == (forall|k: int| 0 <= k < i ==> #[trigger] tokens_view(tokens@)[k] is Char),
            decreases tokens.len() - i,
        {
            let ghost tv = tokens_view(tokens@);
            proof {
                let pre = tv.take(i as int);
                let post = tv.take(i + 1);
                assert(post =~= pre.push(tv[i as int]));
                if tv[i as int] == TokenSpec::AnySeq {
                    assert(post[i as int] == TokenSpec::AnySeq);
                }
                if pre.contains(TokenSpec::AnySeq) {
                    let k = choose|k: int| 0 <= k < pre.len() && pre[k] == TokenSpec::AnySeq;
                    assert(post[k] == TokenSpec::AnySeq);
                }
                if post.contains(TokenSpec::AnySeq) && tv[i as int] != TokenSpec::AnySeq {
                    let k = choose|k: int| 0 <= k < post.len() && post[k] == TokenSpec::AnySeq;
                    assert(pre[k] == TokenSpec::AnySeq);
                }
            }
            match &tokens[i] {
                MatchToken::AnySeq => {
                    recursive = true;
                },
                _ => {},
            }
            match &tokens[i] {
                MatchToken::Char(_) => {},
                _ => {
                    literal = false;
                },
            }
            i = i + 1;
        }
        assert(tokens_view(tokens@).take(i as int) =~= tokens_view(tokens@));
        ScanHint { root, is_recursive: recursive, is_literal: literal }
    }

    fn find_leaf(pattern: &ParsedPattern) -> (r: (&str, &[MatchToken]))
        ensures
            r.0@ == leaf_of(pattern@).0,
            tokens_view(r.1@) == leaf_of(pattern@).1,
        decreases pattern,
    {
        match pattern {
            ParsedPattern::Leaf { pattern, tokens } => (pattern.as_str(), tokens.as_slice()),
            ParsedPattern::Operator { inner, .. } => Self::find_leaf(inner),
        }
    }
}

/// Index of the first unescaped wildcard of `cs`, as [`first_wildcard`].
fn find_wildcard(cs: &Vec<char>) -> (r: Option<usize>)
    ensures
        match r {
            Some(w) => first_wildcard(cs@, 0) == Some(w as int) && w < cs.len(),
            None => first_wildcard(cs@, 0) is None,
        },
{
    let n = cs.len();
    let mut i: usize = 0;
    while i < n
        invariant
            n == cs.len(),
            i <= n,
            first_wildcard(cs@, 0) == first_wildcard(cs@, i as int),
        decreases n - i,
    {
        let c = cs[i];
        if c == '\\' {
            if i + 1 < n {
                i = i + 2;
            } else {
                return None;
            }
        } else if c == '*' || c == '?' || c == '[' {
            return Some(i);
        } else {
            i = i + 1;
        }
    }
    None
}

/// The static root of the wildcard string `p`, as [`scan_root`].
fn root_of(p: &str) -> (r: &str)
    ensures
        r@ == scan_root(p@),
{
    let cs = crate::text::str_to_chars(p);
    match find_wildcard(&cs) {
        None => p,
        Some(w) => {
            let mut end = w;
            while end > 0 && cs[end - 1] != '/'
                invariant
                    end <= w < cs.len(),
                    cs@ == p@,
                    last_separator(p@, w as int) == last_separator(p@, end as int),
                decreases end,
            {
                end = end - 1;
            }
            if end == 0 {
                let r = p.substring_char(0, 0);
                assert(r@ =~= Seq::<char>::empty());
                r
            } else {
                p.substring_char(0, end)
            }
        },
    }
}

/// A trace callback that ignores every report.
pub fn noop_trace<T>(_label: &str, _items: &[T]) {
}

} // verus!
