use vstd::prelude::*;
use crate::error::ReactiveError;
use crate::runtime::{Scope, Runtime, after_run, keeps_disposed};

verus! {

/// An error raised while running a memo or effect body: one the body itself
/// reported (as a code), or one the store raised for it.
#[derive(Debug, Clone, Copy, PartialEq, Eq, Structural)]
pub enum Fault {
    Body(i64),
    Reactive(ReactiveError),
}

/// Error boundaries: observers that capture the errors raised by the scopes
/// registered under them. A boundary shows its fallback while it holds an
/// error.
#[derive(Debug)]
pub struct Boundaries {
    /// Registrations of scopes under boundaries; a later one overrides an
    /// earlier one for the same scope.
    pub of_scope: Vec<(Scope, usize)>,
    /// The errors each boundary holds, with the scope that raised each.
    pub errors: Vec<Vec<(Scope, Fault)>>,
}

/// The boundary that the registrations `regs` give to `scope`: the latest
/// one for it, if any.
pub open spec fn boundary_in(regs: Seq<(Scope, usize)>, scope: Scope) -> Option<usize>
    decreases regs.len(),
{
    if regs.len() == 0 {
        None
    } else if regs.last().0 == scope {
        Some(regs.last().1)
    } else {
        boundary_in(regs.drop_last(), scope)
    }
}

proof fn lemma_boundary_in_bounded(regs: Seq<(Scope, usize)>, scope: Scope, n: nat)
    requires
        forall|i: int| 0 <= i < regs.len() ==> (#[trigger] regs[i]).1 < n,
    ensures
        boundary_in(regs, scope) matches Some(b) ==> b < n,
    decreases regs.len(),
{
    if regs.len() > 0 {
        lemma_boundary_in_bounded(regs.drop_last(), scope, n);
    }
}

/// `post` is `pre` after `fault`, raised by `scope`, was routed: captured by
/// the scope's boundary, or handed back as `to_caller`.
pub open spec fn routed(pre: Boundaries, post: Boundaries, scope: Scope, fault: Fault, to_caller: Option<Fault>) -> bool {
    &&& post.of_scope@ == pre.of_scope@
    &&& pre.boundary_of(scope) is None ==> to_caller == Some(fault) && post == pre
    &&& pre.boundary_of(scope) matches Some(b) ==> {
        &&& to_caller is None
        &&& post.errors@.len() == pre.errors@.len()
        &&& post.errors@[b as int]@ == pre.errors@[b as int]@.push((scope, fault))
        &&& forall|c: int| 0 <= c < pre.errors@.len() && c != b ==> #[trigger] post.errors@[c] == pre.errors@[c]
    }
}

/// `post` is `pre` after the errors raised by `scope` were withdrawn.
pub open spec fn cleared(pre: Boundaries, post: Boundaries, scope: Scope) -> bool {
    &&& post.of_scope@ == pre.of_scope@
    &&& post.errors@.len() == pre.errors@.len()
    &&& pre.boundary_of(scope) is None ==> post == pre
    &&& pre.boundary_of(scope) matches Some(b) ==> {
        &&& forall|x: (Scope, Fault)|
            #[trigger] post.errors@[b as int]@.contains(x) <==> (pre.errors@[b as int]@.contains(x) && x.0 != scope)
        &&& forall|c: int| 0 <= c < pre.errors@.len() && c != b ==> #[trigger] post.errors@[c] == pre.errors@[c]
    }
}

/// Ends the innermost run, which belongs to effect `e`, and routes its
/// outcome: a run that tripped the cycle guard raises `ReactiveCycle` for
/// the effect's scope, captured by its boundary or handed back to the
/// caller, never dropped; a clean run withdraws the errors the effect had
/// raised before.
pub fn finish_effect(rt: &mut Runtime, bs: &mut Boundaries, e: usize) -> (to_caller: Option<Fault>)
    requires
        old(rt).wf(),
        old(bs).wf(),
        old(rt).frames@.len() > 0,
        old(rt).frames@.last().scope == Scope::Effect(e),
    ensures
        final(rt).wf(),
        keeps_disposed(*old(rt), *final(rt)),
        final(bs).wf(),
        final(rt).frames@ == old(rt).frames@.drop_last(),
        ({
            let pre = old(rt).effects@[e as int];
            match after_run(pre.retriggers, pre.dirty) {
                None => {
                    &&& final(rt).effects@[e as int].stopped
                    &&& routed(*old(bs), *final(bs), Scope::Effect(e), Fault::Reactive(ReactiveError::ReactiveCycle), to_caller)
                },
                Some(c) => {
                    &&& final(rt).effects@[e as int].retriggers == c
                    &&& to_caller is None
                    &&& cleared(*old(bs), *final(bs), Scope::Effect(e))
                },
            }
        }),
{
    match rt.end_effect(e) {
        Ok(()) => {
            bs.clear(Scope::Effect(e));
            None
        },
        Err(err) => bs.report(Scope::Effect(e), Fault::Reactive(err)),
    }
}

impl Boundaries {
    pub open spec fn wf(self) -> bool {
        forall|i: int| 0 <= i < self.of_scope@.len() ==> (#[trigger] self.of_scope@[i]).1 < self.errors@.len()
    }

    /// The boundary that captures the errors of `scope`.
    pub open spec fn boundary_of(self, scope: Scope) -> Option<usize> {
        boundary_in(self.of_scope@, scope)
    }

    pub fn new() -> (bs: Boundaries)
        ensures
            bs.wf(),
            bs.of_scope@.len() == 0,
            bs.errors@.len() == 0,
    {
        Boundaries { of_scope: Vec::new(), errors: Vec::new() }
    }

    /// Creates a boundary holding no error and returns its index.
    pub fn create_boundary(&mut self) -> (b: usize)
        requires
            old(self).wf(),
        ensures
            final(self).wf(),
            b == old(self).errors@.len(),
            final(self).errors@.len() == b + 1,
            forall|c: int| 0 <= c < b ==> #[trigger] final(self).errors@[c] == old(self).errors@[c],
            final(self).errors@[b as int]@.len() == 0,
            final(self).of_scope@ == old(self).of_scope@,
    {
        let b = self.errors.len();
        self.errors.push(Vec::new());
        b
    }

    /// Registers `scope` under boundary `b`.
    pub fn attach(&mut self, scope: Scope, b: usize)
        requires
            old(self).wf(),
            b < old(self).errors@.len(),
        ensures
            final(self).wf(),
            final(self).of_scope@ == old(self).of_scope@.push((scope, b)),
            final(self).errors@ == old(self).errors@,
            final(self).boundary_of(scope) == Some(b),
    {
        self.of_scope.push((scope, b));
        assert(self.of_scope@.drop_last() == old(self).of_scope@);
    }

    /// The boundary registered for `scope`, if any.
    pub fn find(&self, scope: Scope) -> (r: Option<usize>)
        requires
            self.wf(),
        ensures
            r == self.boundary_of(scope),
            r matches Some(b) ==> b < self.errors@.len(),
    {
        let mut r: Option<usize> = None;
        let mut i: usize = 0;
        while i < self.of_scope.len()
            invariant
                i <= self.of_scope@.len(),
                r == boundary_in(self.of_scope@.take(i as int), scope),
            decreases self.of_scope@.len() - i,
        {
            let (s, b) = self.of_scope[i];
            assert(self.of_scope@.take(i + 1).drop_last() == self.of_scope@.take(i as int));
            if s == scope {
                r = Some(b);
            }
            i = i + 1;
        }
        assert(self.of_scope@.take(self.of_scope@.len() as int) == self.of_scope@);
        proof {
            lemma_boundary_in_bounded(self.of_scope@, scope, self.errors@.len());
        }
        r
    }

    /// Routes an error raised by the body run for `scope`: a registered
    /// boundary captures it, and nothing reaches the caller; without one it
    /// is handed back to the caller of the triggering operation.
    pub fn report(&mut self, scope: Scope, fault: Fault) -> (to_caller: Option<Fault>)
        requires
            old(self).wf(),
        ensures
            final(self).wf(),
            final(self).of_scope@ == old(self).of_scope@,
            old(self).boundary_of(scope) is None ==> to_caller == Some(fault) && *final(self) == *old(self),
            old(self).boundary_of(scope) matches Some(b) ==> {
                &&& to_caller is None
                &&& final(self).errors@.len() == old(self).errors@.len()
                &&& final(self).errors@[b as int]@ == old(self).errors@[b as int]@.push((scope, fault))
                &&& forall|c: int|
                    0 <= c < old(self).errors@.len() && c != b ==> #[trigger] final(self).errors@[c]
                        == old(self).errors@[c]
            },
    {
        match self.find(scope) {
            None => Some(fault),
            Some(b) => {
                self.errors[b].push((scope, fault));
                None
            },
        }
    }

    /// A clean run of `scope` withdraws the errors it had raised from its
    /// boundary; nothing else changes.
    pub fn clear(&mut self, scope: Scope)
        requires
            old(self).wf(),
        ensures
            final(self).wf(),
            final(self).of_scope@ == old(self).of_scope@,
            final(self).errors@.len() == old(self).errors@.len(),
            old(self).boundary_of(scope) is None ==> *final(self) == *old(self),
            old(self).boundary_of(scope) matches Some(b) ==> {
                &&& forall|x: (Scope, Fault)|
                    #[trigger] final(self).errors@[b as int]@.contains(x) <==> (old(
                        self,
                    ).errors@[b as int]@.contains(x) && x.0 != scope)
                &&& forall|c: int|
                    0 <= c < old(self).errors@.len() && c != b ==> #[trigger] final(self).errors@[c]
                        == old(self).errors@[c]
            },
    {
        match self.find(scope) {
            None => {},
            Some(b) => {
                let kept = keep_others(&self.errors[b], scope);
                self.errors[b] = kept;
            },
        }
    }

    /// Whether boundary `b` holds an error, and so shows its fallback.
    pub fn failed(&self, b: usize) -> (r: bool)
        requires
            b < self.errors@.len(),
        ensures
            r == (self.errors@[b as int]@.len() > 0),
    {
        self.errors[b].len() > 0
    }
}

/// The entries of `v` raised by scopes other than `scope`.
fn keep_others(v: &Vec<(Scope, Fault)>, scope: Scope) -> (r: Vec<(Scope, Fault)>)
    ensures
        forall|x: (Scope, Fault)| #[trigger] r@.contains(x) <==> (v@.contains(x) && x.0 != scope),
{
    let mut r: Vec<(Scope, Fault)> = Vec::new();
    let mut i: usize = 0;
    while i < v.len()
        invariant
            i <= v@.len(),
            forall|x: (Scope, Fault)|
                #[trigger] r@.contains(x) <==> (v@.take(i as int).contains(x) && x.0 != scope),
        decreases v@.len() - i,
    {
        let x = v[i];
        proof {
            assert(v@.take(i + 1) == v@.take(i as int).push(x));
            crate::runtime::lemma_push_contains(v@.take(i as int), x);
            crate::runtime::lemma_push_contains(r@, x);
        }
        if x.0 != scope {
            r.push(x);
        }
        i = i + 1;
    }
    assert(v@.take(v@.len() as int) == v@);
    r
}

} // verus!
