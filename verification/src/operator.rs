// Operator abstraction for the pattern pipeline.  GlobOperator is the trait
// that callers implement to sort, filter, or otherwise transform the list of
// matched candidates after the wildcard match step.  Two built-in
// implementations are provided: ReverseOp (reverses the result list) and
// FnOperator (wraps a closure so operators can be registered inline without
// defining a new struct).

use std::marker::PhantomData;
use vstd::prelude::*;

verus! {

/// The operator trait for customizing query step transformations.
pub trait GlobOperator<T> {
    /// The operator name used for pattern matching.
    fn name(&self) -> &str;

    /// Whether `after` is a list that [`apply`](Self::apply) may leave when
    /// it starts from `before`.  An implementation that does not describe
    /// itself admits any list.
    open spec fn transforms(&self, before: Seq<T>, after: Seq<T>) -> bool {
        true
    }

    /// Reorders, filters or rewrites the matched candidates in place.
    fn apply(&self, candidates: &mut Vec<T>)
        ensures
            self.transforms(old(candidates)@, final(candidates)@),
    ;
}

/// A ready-to-use operator that reverses the matched candidate list.
pub struct ReverseOp;

/// Reverses `v` in place.
pub fn reverse_vec<T>(v: &mut Vec<T>)
    ensures
        final(v)@ == old(v)@.reverse(),
{
    let ghost orig = v@;
    let mut out: Vec<T> = Vec::new();
    while v.len() > 0
        invariant
            orig.len() == v.len() + out.len(),
            v@ == orig.take(v.len() as int),
            forall|k: int| 0 <= k < out.len() ==> #[trigger] out@[k] == orig[orig.len() - 1 - k],
        decreases v.len(),
    {
        let x = v.pop().unwrap();
        out.push(x);
        assert(v@ =~= orig.take(v.len() as int));
    }
    *v = out;
    assert(v@ =~= orig.reverse());
}

impl<T> GlobOperator<T> for ReverseOp {
    /// Always the name `REVERSE`.
    fn name(&self) -> &str
        returns
            "REVERSE",
    {
        "REVERSE"
    }

    /// The list comes out reversed.
    open spec fn transforms(&self, before: Seq<T>, after: Seq<T>) -> bool {
        after == before.reverse()
    }

    fn apply(&self, candidates: &mut Vec<T>)
        ensures
            final(candidates)@ == old(candidates)@.reverse(),
    {
        reverse_vec(candidates);
    }
}

/// A generic closure-based operator wrapper.
pub struct FnOperator<T, F> where F: Fn(&mut Vec<T>) {
    name: &'static str,
    func: F,
    _marker: PhantomData<T>,
}

impl<T, F> FnOperator<T, F> where F: Fn(&mut Vec<T>) {
    /// Creates a new closure-based operator wrapper with the specified static name.
    pub fn new(name: &'static str, func: F) -> (r: Self)
        requires
            forall|v: &mut Vec<T>| #[trigger] func.requires((v,)),
        ensures
            r.op_name() == name@,
            r.func() == func,
    {
        FnOperator { name, func, _marker: PhantomData }
    }

    /// The name given at construction.
    pub closed spec fn op_name(&self) -> Seq<char> {
        self.name@
    }

    /// The closure given at construction.
    pub closed spec fn func(&self) -> F {
        self.func
    }

    #[verifier::type_invariant]
    closed spec fn callable(&self) -> bool {
        forall|v: &mut Vec<T>| #[trigger] self.func.requires((v,))
    }
}

impl<T, F> GlobOperator<T> for FnOperator<T, F> where F: Fn(&mut Vec<T>) {
    fn name(&self) -> (r: &str)
        ensures
            r@ == self.op_name(),
    {
        self.name
    }

    /// Runs the wrapped closure once on the candidates: the list before and
    /// after the call is a before/after pair that the closure's own
    /// postcondition admits.
    fn apply(&self, candidates: &mut Vec<T>)
        ensures
            exists|v: &mut Vec<T>|
                *v == *old(candidates) && *final(v) == *final(candidates)
                    && #[trigger] self.func().ensures((v,), ()),
    {
        proof {
            use_type_invariant(self);
        }
        (self.func)(candidates);
        proof {
            let v = choose|x: &mut Vec<T>|
                *x == *old(candidates) && *final(x) == *final(candidates)
                    && call_ensures(self.func, (x,), ());
            assert(self.func().ensures((v,), ()));
        }
    }
}

} // verus!
