use vstd::prelude::*;
use crate::error::ReactiveError;

verus! {

/// How many times in a row an effect may re-trigger itself through its own
/// writes before it is suspended.
pub const MAX_RETRIGGERS: u64 = 8;

/// Storage of one cell, or of a memoized value's cache.
#[derive(Debug, Clone, Copy, PartialEq, Eq, Structural)]
pub struct Node {
    pub value: i64,
    /// Advances on every committed write.
    pub generation: u64,
    pub disposed: bool,
}

/// A side-effecting computation, run by the caller whenever it is dirty.
#[derive(Debug)]
pub struct Effect {
    /// Nodes read during the latest run.
    pub deps: Vec<usize>,
    /// Some dependency changed since the latest run started.
    pub dirty: bool,
    /// Stopped for good, by its owner or by the cycle guard.
    pub stopped: bool,
    /// Consecutive runs that ended re-triggered by the effect's own writes.
    pub retriggers: u64,
}

/// A cached derived value, stored in its own node.
#[derive(Debug)]
pub struct Memo {
    pub node: usize,
    /// Nodes read during the latest evaluation, each with the generation it
    /// had then.
    pub deps: Vec<(usize, u64)>,
    /// Whether it was ever evaluated.
    pub computed: bool,
}

/// Who is evaluating.
#[derive(Debug, Clone, Copy, PartialEq, Eq, Structural)]
pub enum Scope {
    Effect(usize),
    Memo(usize),
}

/// What the host should do next to bring the store up to date.
#[derive(Debug, Clone, Copy, PartialEq, Eq, Structural)]
pub enum Step {
    /// Evaluate this stale memo.
    EvaluateMemo(usize),
    /// Run this dirty effect; no memo is stale, so every memo it reads is
    /// current.
    RunEffect(usize),
    /// Nothing is due.
    Settled,
}

/// An evaluation in progress and the nodes it has read so far.
#[derive(Debug)]
pub struct Frame {
    pub scope: Scope,
    pub reads: Vec<usize>,
}

/// The store: nodes, effects, memos and the stack of evaluations in
/// progress (innermost last).
#[derive(Debug)]
pub struct Runtime {
    pub nodes: Vec<Node>,
    pub effects: Vec<Effect>,
    pub memos: Vec<Memo>,
    pub frames: Vec<Frame>,
}

/// Effect `e` has a run in progress that has read node `n`.
pub open spec fn reads_in_run(frames: Seq<Frame>, e: usize, n: usize) -> bool {
    exists|f: int|
        0 <= f < frames.len() && frames[f].scope == Scope::Effect(e) && (#[trigger] frames[f]).reads@.contains(n)
}

/// Effect `e` has a run in progress.
pub open spec fn running(frames: Seq<Frame>, e: usize) -> bool {
    exists|f: int| 0 <= f < frames.len() && (#[trigger] frames[f]).scope == Scope::Effect(e)
}

/// A change of node `n` concerns effect `e`: the effect is not stopped and
/// depends on `n`, or its run in progress has read `n`.
pub open spec fn notified(effects: Seq<Effect>, frames: Seq<Frame>, e: int, n: usize) -> bool {
    !effects[e].stopped && (effects[e].deps@.contains(n) || reads_in_run(frames, e as usize, n))
}

/// `post` is `pre` with every effect concerned by a change of node `n`
/// marked dirty, and nothing else changed.
pub open spec fn marks(pre: Seq<Effect>, frames: Seq<Frame>, post: Seq<Effect>, n: usize) -> bool {
    &&& post.len() == pre.len()
    &&& forall|e: int|
        0 <= e < pre.len() ==> {
            &&& (#[trigger] post[e]).deps == pre[e].deps
            &&& post[e].stopped == pre[e].stopped
            &&& post[e].retriggers == pre[e].retriggers
            &&& post[e].dirty == (pre[e].dirty || notified(pre, frames, e, n))
        }
}

/// The retrigger count after a run; `None` when the run suspends the effect.
pub open spec fn after_run(count: u64, retriggered: bool) -> Option<u64> {
    if !retriggered {
        Some(0)
    } else if count >= MAX_RETRIGGERS {
        None
    } else {
        Some((count + 1) as u64)
    }
}

/// The retrigger count after `k` runs in a row that each re-triggered.
pub open spec fn retrigger_chain(count: u64, k: nat) -> Option<u64>
    decreases k,
{
    if k == 0 {
        Some(count)
    } else {
        match retrigger_chain(count, (k - 1) as nat) {
            Some(c) => after_run(c, true),
            None => None,
        }
    }
}

/// Pushing `n` adds exactly `n` to what a sequence contains.
pub proof fn lemma_push_contains<T>(s: Seq<T>, n: T)
    ensures
        forall|x: T| #[trigger] s.push(n).contains(x) <==> (s.contains(x) || x == n),
{
    assert forall|x: T| #[trigger] s.push(n).contains(x) <==> (s.contains(x) || x == n) by {
        if s.contains(x) {
            let i = choose|i: int| 0 <= i < s.len() && s[i] == x;
            assert(s.push(n)[i] == x);
        }
        if x == n {
            assert(s.push(n)[s.len() as int] == n);
        }
    }
}

/// Whether a run of effect `e` in progress has read node `n`.
fn read_in_run(frames: &Vec<Frame>, e: usize, n: usize) -> (b: bool)
    ensures
        b == reads_in_run(frames@, e, n),
{
    let mut i: usize = 0;
    while i < frames.len()
        invariant
            i <= frames@.len(),
            forall|f: int|
                0 <= f < i ==> !(frames@[f].scope == Scope::Effect(e) && (#[trigger] frames@[f]).reads@.contains(n)),
        decreases frames@.len() - i,
    {
        if frames[i].scope == Scope::Effect(e) && contains_id(&frames[i].reads, n) {
            return true;
        }
        i = i + 1;
    }
    false
}

/// Whether effect `e` has a run in progress.
fn is_running(frames: &Vec<Frame>, e: usize) -> (b: bool)
    ensures
        b == running(frames@, e),
{
    let mut i: usize = 0;
    while i < frames.len()
        invariant
            i <= frames@.len(),
            forall|f: int| 0 <= f < i ==> (#[trigger] frames@[f]).scope != Scope::Effect(e),
        decreases frames@.len() - i,
    {
        if frames[i].scope == Scope::Effect(e) {
            return true;
        }
        i = i + 1;
    }
    false
}

/// Whether `x` occurs in `v`.
fn contains_id(v: &Vec<usize>, x: usize) -> (b: bool)
    ensures
        b == v@.contains(x),
{
    let mut i: usize = 0;
    while i < v.len()
        invariant
            i <= v@.len(),
            forall|j: int| 0 <= j < i ==> v@[j] != x,
        decreases v@.len() - i,
    {
        if v[i] == x {
            return true;
        }
        i = i + 1;
    }
    false
}

/// `v` without the occurrences of `n`.
fn without(v: &Vec<usize>, n: usize) -> (r: Vec<usize>)
    ensures
        forall|x: usize| #[trigger] r@.contains(x) <==> (v@.contains(x) && x != n),
        forall|i: int| 0 <= i < r@.len() ==> #[trigger] r@[i] != n && v@.contains(r@[i]),
{
    let mut r: Vec<usize> = Vec::new();
    let mut i: usize = 0;
    while i < v.len()
        invariant
            i <= v@.len(),
            forall|x: usize| #[trigger] r@.contains(x) <==> (v@.take(i as int).contains(x) && x != n),
            forall|j: int| 0 <= j < r@.len() ==> #[trigger] r@[j] != n && v@.contains(r@[j]),
        decreases v@.len() - i,
    {
        let x = v[i];
        proof {
            assert(v@.take(i + 1) == v@.take(i as int).push(x));
            lemma_push_contains(v@.take(i as int), x);
            lemma_push_contains(r@, x);
        }
        if x != n {
            r.push(x);
        }
        i = i + 1;
    }
    assert(v@.take(v@.len() as int) == v@);
    r
}

/// The pairs of `v` whose node is not `n`.
fn without_pairs(v: &Vec<(usize, u64)>, n: usize) -> (r: Vec<(usize, u64)>)
    ensures
        forall|p: (usize, u64)| #[trigger] r@.contains(p) <==> (v@.contains(p) && p.0 != n),
        forall|i: int| 0 <= i < r@.len() ==> (#[trigger] r@[i]).0 != n && v@.contains(r@[i]),
{
    let mut r: Vec<(usize, u64)> = Vec::new();
    let mut i: usize = 0;
    while i < v.len()
        invariant
            i <= v@.len(),
            forall|p: (usize, u64)|
                #[trigger] r@.contains(p) <==> (v@.take(i as int).contains(p) && p.0 != n),
            forall|j: int| 0 <= j < r@.len() ==> (#[trigger] r@[j]).0 != n && v@.contains(r@[j]),
        decreases v@.len() - i,
    {
        let x = v[i];
        proof {
            assert(v@.take(i + 1) == v@.take(i as int).push(x));
            lemma_push_contains(v@.take(i as int), x);
            lemma_push_contains(r@, x);
        }
        if x.0 != n {
            r.push(x);
        }
        i = i + 1;
    }
    assert(v@.take(v@.len() as int) == v@);
    r
}

/// The clause of `wf` on effect dependencies carries over when no live node
/// dies, every effect keeps its dependencies, and new effects have none.
proof fn lemma_effect_deps_live(pre: Runtime, post: Runtime)
    requires
        pre.wf(),
        pre.nodes@.len() <= post.nodes@.len(),
        forall|n: int| 0 <= n < pre.nodes@.len() ==> (#[trigger] post.nodes@[n]).disposed == pre.nodes@[n].disposed,
        pre.effects@.len() <= post.effects@.len(),
        forall|e: int| 0 <= e < pre.effects@.len() ==> (#[trigger] post.effects@[e]).deps == pre.effects@[e].deps,
        forall|e: int| pre.effects@.len() <= e < post.effects@.len() ==> (#[trigger] post.effects@[e]).deps@.len() == 0,
    ensures
        forall|e: int, i: int|
            0 <= e < post.effects@.len() && 0 <= i < post.effects@[e].deps@.len() ==> post.live(
                #[trigger] post.effects@[e].deps@[i] as int,
            ),
{
    assert forall|e: int, i: int|
        0 <= e < post.effects@.len() && 0 <= i < post.effects@[e].deps@.len() implies post.live(
            #[trigger] post.effects@[e].deps@[i] as int,
        ) by {
        assert(pre.live(pre.effects@[e].deps@[i] as int));
        assert(post.nodes@[pre.effects@[e].deps@[i] as int].disposed == pre.nodes@[pre.effects@[e].deps@[i] as int].disposed);
    }
}

impl Runtime {
    /// Node `n` exists and was not disposed.
    pub open spec fn live(self, n: int) -> bool {
        0 <= n < self.nodes@.len() && !self.nodes@[n].disposed
    }

    /// Effect `e` is notified of changes to node `n`.
    pub open spec fn subscribes(self, e: int, n: int) -> bool {
        !self.effects@[e].stopped && self.effects@[e].deps@.contains(n as usize)
    }

    pub open spec fn read_result(self, n: usize) -> Result<i64, ReactiveError> {
        if self.live(n as int) {
            Ok(self.nodes@[n as int].value)
        } else {
            Err(ReactiveError::UseAfterDispose)
        }
    }

    pub open spec fn scope_ok(self, s: Scope) -> bool {
        match s {
            Scope::Effect(e) => e < self.effects@.len(),
            Scope::Memo(m) => m < self.memos@.len(),
        }
    }

    pub open spec fn wf(self) -> bool {
        &&& forall|e: int, i: int|
            0 <= e < self.effects@.len() && 0 <= i < self.effects@[e].deps@.len() ==> self.live(
                #[trigger] self.effects@[e].deps@[i] as int,
            )
        &&& forall|m: int| 0 <= m < self.memos@.len() ==> #[trigger] self.memos@[m].node < self.nodes@.len()
        &&& forall|m: int, i: int|
            0 <= m < self.memos@.len() && 0 <= i < self.memos@[m].deps@.len() ==> {
                let d = #[trigger] self.memos@[m].deps@[i];
                &&& self.live(d.0 as int)
                &&& d.1 <= self.nodes@[d.0 as int].generation
            }
        &&& forall|f: int| 0 <= f < self.frames@.len() ==> self.scope_ok(#[trigger] self.frames@[f].scope)
        &&& forall|f: int, i: int|
            0 <= f < self.frames@.len() && 0 <= i < self.frames@[f].reads@.len()
                ==> #[trigger] self.frames@[f].reads@[i] < self.nodes@.len()
    }

    /// Memo `m` must be evaluated before its cached value can be used: it
    /// never was, or a node it read has moved past the generation it saw.
    pub open spec fn stale(self, m: int) -> bool {
        let memo = self.memos@[m];
        ||| !memo.computed
        ||| exists|i: int|
            0 <= i < memo.deps@.len() && (#[trigger] memo.deps@[i]).1 < self.nodes@[memo.deps@[i].0 as int].generation
    }

    /// `post` is `pre` after node `n` was disposed.
    pub open spec fn dispose_step(pre: Runtime, post: Runtime, n: usize) -> bool {
        &&& pre.live(n as int)
        &&& post.nodes@ == pre.nodes@.update(
            n as int,
            Node { disposed: true, ..pre.nodes@[n as int] },
        )
        &&& post.effects@.len() == pre.effects@.len()
        &&& forall|e: int|
            0 <= e < pre.effects@.len() ==> {
                &&& (#[trigger] post.effects@[e]).dirty == pre.effects@[e].dirty
                &&& post.effects@[e].stopped == pre.effects@[e].stopped
                &&& post.effects@[e].retriggers == pre.effects@[e].retriggers
                &&& forall|x: usize|
                    #[trigger] post.effects@[e].deps@.contains(x) <==> (
                    pre.effects@[e].deps@.contains(x) && x != n)
            }
        &&& post.memos@.len() == pre.memos@.len()
        &&& forall|m: int|
            0 <= m < pre.memos@.len() ==> {
                &&& (#[trigger] post.memos@[m]).node == pre.memos@[m].node
                &&& post.memos@[m].computed == pre.memos@[m].computed
                &&& forall|p: (usize, u64)|
                    #[trigger] post.memos@[m].deps@.contains(p) <==> (
                    pre.memos@[m].deps@.contains(p) && p.0 != n)
            }
        &&& post.frames@ == pre.frames@
    }

    /// `post` is `pre` after a tracked read of node `n`: the read is recorded
    /// in the innermost evaluation in progress, when the node is live, and
    /// nowhere else.
    pub open spec fn track_step(pre: Runtime, post: Runtime, n: usize) -> bool {
        &&& post.nodes@ == pre.nodes@
        &&& post.effects@ == pre.effects@
        &&& post.memos@ == pre.memos@
        &&& post.frames@.len() == pre.frames@.len()
        &&& forall|f: int| 0 <= f < pre.frames@.len() - 1 ==> #[trigger] post.frames@[f] == pre.frames@[f]
        &&& pre.frames@.len() > 0 ==> {
            let top = pre.frames@.len() - 1;
            &&& post.frames@[top].scope == pre.frames@[top].scope
            &&& forall|x: usize|
                #[trigger] post.frames@[top].reads@.contains(x) <==> (
                pre.frames@[top].reads@.contains(x) || (pre.live(n as int) && x == n))
        }
    }

    /// `post` is `pre` after a committed write of `v` to node `n`.
    pub open spec fn write_step(pre: Runtime, post: Runtime, n: usize, v: i64) -> bool {
        &&& pre.live(n as int)
        &&& post.nodes@ == pre.nodes@.update(
            n as int,
            Node { value: v, generation: (pre.nodes@[n as int].generation + 1) as u64, disposed: false },
        )
        &&& marks(pre.effects@, pre.frames@, post.effects@, n)
        &&& post.memos@ == pre.memos@
        &&& post.frames@ == pre.frames@
    }

    pub fn new() -> (rt: Runtime)
        ensures
            rt.wf(),
            rt.nodes@.len() == 0,
            rt.effects@.len() == 0,
            rt.memos@.len() == 0,
            rt.frames@.len() == 0,
    {
        Runtime { nodes: Vec::new(), effects: Vec::new(), memos: Vec::new(), frames: Vec::new() }
    }

    /// Creates a cell holding `value` and returns its handle.
    pub fn create_cell(&mut self, value: i64) -> (n: usize)
        requires
            old(self).wf(),
        ensures
            final(self).wf(),
            keeps_disposed(*old(self), *final(self)),
            n == old(self).nodes@.len(),
            final(self).nodes@ == old(self).nodes@.push(Node { value, generation: 0, disposed: false }),
            final(self).effects@ == old(self).effects@,
            final(self).memos@ == old(self).memos@,
            final(self).frames@ == old(self).frames@,
    {
        let n = self.nodes.len();
        self.nodes.push(Node { value, generation: 0, disposed: false });
        proof {
            assert forall|e: int, i: int|
                0 <= e < self.effects@.len() && 0 <= i < self.effects@[e].deps@.len() implies self.live(
                    #[trigger] self.effects@[e].deps@[i] as int,
                ) by {
                assert(old(self).live(self.effects@[e].deps@[i] as int));
            }
            assert forall|m: int, i: int|
                0 <= m < self.memos@.len() && 0 <= i < self.memos@[m].deps@.len() implies {
                    let d = #[trigger] self.memos@[m].deps@[i];
                    &&& self.live(d.0 as int)
                    &&& d.1 <= self.nodes@[d.0 as int].generation
                } by {
                let d = self.memos@[m].deps@[i];
                assert(old(self).live(d.0 as int));
            }
        }
        n
    }

    /// The value of node `n`, without recording a dependency.
    pub fn read(&self, n: usize) -> (r: Result<i64, ReactiveError>)
        ensures
            r == self.read_result(n),
    {
        if n < self.nodes.len() && !self.nodes[n].disposed {
            Ok(self.nodes[n].value)
        } else {
            Err(ReactiveError::UseAfterDispose)
        }
    }

    /// The value of node `n`, recorded as a dependency of the innermost
    /// evaluation in progress, and of no other.
    pub fn track(&mut self, n: usize) -> (r: Result<i64, ReactiveError>)
        requires
            old(self).wf(),
        ensures
            final(self).wf(),
            keeps_disposed(*old(self), *final(self)),
            r == old(self).read_result(n),
            Runtime::track_step(*old(self), *final(self), n),
    {
        let r = self.read(n);
        if r.is_ok() && self.frames.len() > 0 {
            let top = self.frames.len() - 1;
            if !contains_id(&self.frames[top].reads, n) {
                let ghost pre = self.frames@[top as int].reads@;
                self.frames[top].reads.push(n);
                proof {
                    lemma_push_contains(pre, n);
                }
            }
        }
        r
    }

    /// Marks dirty every effect concerned by a change of node `n`.
    fn notify(&mut self, n: usize)
        ensures
            marks(old(self).effects@, old(self).frames@, final(self).effects@, n),
            final(self).nodes@ == old(self).nodes@,
            final(self).memos@ == old(self).memos@,
            final(self).frames@ == old(self).frames@,
    {
        let ghost pre = self.effects@;
        let mut e: usize = 0;
        while e < self.effects.len()
            invariant
                self.effects@.len() == pre.len(),
                e <= pre.len(),
                self.nodes@ == old(self).nodes@,
                self.memos@ == old(self).memos@,
                self.frames@ == old(self).frames@,
                pre == old(self).effects@,
                forall|x: int|
                    0 <= x < e ==> {
                        &&& (#[trigger] self.effects@[x]).deps == pre[x].deps
                        &&& self.effects@[x].stopped == pre[x].stopped
                        &&& self.effects@[x].retriggers == pre[x].retriggers
                        &&& self.effects@[x].dirty == (pre[x].dirty || notified(
                            pre,
                            self.frames@,
                            x,
                            n,
                        ))
                    },
                forall|x: int| e <= x < pre.len() ==> #[trigger] self.effects@[x] == pre[x],
            decreases pre.len() - e,
        {
            let sub = !self.effects[e].stopped && (contains_id(&self.effects[e].deps, n)
                || read_in_run(&self.frames, e, n));
            if sub {
                self.effects[e].dirty = true;
            }
            e = e + 1;
        }
    }

    /// Stores `v` in node `n`, advances its generation and marks its
    /// subscribers dirty. A disposed node is refused and nothing changes.
    pub fn write(&mut self, n: usize, v: i64) -> (r: Result<(), ReactiveError>)
        requires
            old(self).wf(),
            old(self).live(n as int) ==> old(self).nodes@[n as int].generation < u64::MAX,
        ensures
            final(self).wf(),
            keeps_disposed(*old(self), *final(self)),
            r is Ok <==> old(self).live(n as int),
            r is Ok ==> Runtime::write_step(*old(self), *final(self), n, v),
            r is Err ==> r == Err::<(), ReactiveError>(ReactiveError::UseAfterDispose),
            r is Err ==> *final(self) == *old(self),
    {
        if n >= self.nodes.len() || self.nodes[n].disposed {
            return Err(ReactiveError::UseAfterDispose);
        }
        let g = self.nodes[n].generation;
        self.nodes.set(n, Node { value: v, generation: g + 1, disposed: false });
        self.notify(n);
        proof {
            lemma_effect_deps_live(*old(self), *self);
            assert forall|m: int, i: int|
                0 <= m < self.memos@.len() && 0 <= i < self.memos@[m].deps@.len() implies {
                    let d = #[trigger] self.memos@[m].deps@[i];
                    &&& self.live(d.0 as int)
                    &&& d.1 <= self.nodes@[d.0 as int].generation
                } by {
                let d = self.memos@[m].deps@[i];
                assert(old(self).live(d.0 as int));
            }
        }
        Ok(())
    }

    /// Replaces the value of node `n` by `f` of it, with the propagation of
    /// `write`. A disposed node is refused and nothing changes.
    pub fn update<F: Fn(i64) -> i64>(&mut self, n: usize, f: F) -> (r: Result<(), ReactiveError>)
        requires
            old(self).wf(),
            old(self).live(n as int) ==> old(self).nodes@[n as int].generation < u64::MAX,
            old(self).live(n as int) ==> f.requires((old(self).nodes@[n as int].value,)),
        ensures
            final(self).wf(),
            keeps_disposed(*old(self), *final(self)),
            r is Ok <==> old(self).live(n as int),
            r is Ok ==> exists|v: i64|
                f.ensures((old(self).nodes@[n as int].value,), v) && #[trigger] Runtime::write_step(
                    *old(self),
                    *final(self),
                    n,
                    v,
                ),
            r is Err ==> r == Err::<(), ReactiveError>(ReactiveError::UseAfterDispose),
            r is Err ==> *final(self) == *old(self),
    {
        if n >= self.nodes.len() || self.nodes[n].disposed {
            return Err(ReactiveError::UseAfterDispose);
        }
        let v = f(self.nodes[n].value);
        self.write(n, v)
    }

    /// Registers an effect. It starts dirty, so that its first run
    /// establishes its dependencies.
    pub fn create_effect(&mut self) -> (e: usize)
        requires
            old(self).wf(),
        ensures
            final(self).wf(),
            keeps_disposed(*old(self), *final(self)),
            e == old(self).effects@.len(),
            final(self).effects@.len() == e + 1,
            forall|x: int| 0 <= x < e ==> #[trigger] final(self).effects@[x] == old(self).effects@[x],
            final(self).effects@[e as int].deps@.len() == 0,
            final(self).effects@[e as int].dirty,
            !final(self).effects@[e as int].stopped,
            final(self).effects@[e as int].retriggers == 0,
            final(self).nodes@ == old(self).nodes@,
            final(self).memos@ == old(self).memos@,
            final(self).frames@ == old(self).frames@,
    {
        let e = self.effects.len();
        self.effects.push(Effect { deps: Vec::new(), dirty: true, stopped: false, retriggers: 0 });
        proof {
            lemma_effect_deps_live(*old(self), *self);
            assert forall|f: int| 0 <= f < self.frames@.len() implies self.scope_ok(
                #[trigger] self.frames@[f].scope,
            ) by {
                assert(old(self).scope_ok(old(self).frames@[f].scope));
            }
        }
        e
    }

    /// Stops effect `e` for good: it is no longer notified, and a pending
    /// re-run is cancelled.
    pub fn stop_effect(&mut self, e: usize)
        requires
            old(self).wf(),
            e < old(self).effects@.len(),
        ensures
            final(self).wf(),
            keeps_disposed(*old(self), *final(self)),
            final(self).effects@.len() == old(self).effects@.len(),
            forall|x: int|
                0 <= x < old(self).effects@.len() && x != e ==> #[trigger] final(self).effects@[x]
                    == old(self).effects@[x],
            final(self).effects@[e as int].deps == old(self).effects@[e as int].deps,
            final(self).effects@[e as int].stopped,
            !final(self).effects@[e as int].dirty,
            final(self).nodes@ == old(self).nodes@,
            final(self).memos@ == old(self).memos@,
            final(self).frames@ == old(self).frames@,
    {
        self.effects[e].stopped = true;
        self.effects[e].dirty = false;
        proof {
            lemma_effect_deps_live(*old(self), *self);
        }
    }

    /// The nodes of `ids` that are still live, each once at most.
    fn live_only(&self, ids: &Vec<usize>) -> (r: Vec<usize>)
        ensures
            forall|x: usize| #[trigger] r@.contains(x) <==> (ids@.contains(x) && self.live(x as int)),
            forall|i: int| 0 <= i < r@.len() ==> self.live(#[trigger] r@[i] as int),
    {
        let mut r: Vec<usize> = Vec::new();
        let mut i: usize = 0;
        while i < ids.len()
            invariant
                i <= ids@.len(),
                forall|x: usize|
                    #[trigger] r@.contains(x) <==> (ids@.take(i as int).contains(x) && self.live(
                        x as int,
                    )),
                forall|j: int| 0 <= j < r@.len() ==> self.live(#[trigger] r@[j] as int),
            decreases ids@.len() - i,
        {
            let x = ids[i];
            proof {
                assert(ids@.take(i + 1) == ids@.take(i as int).push(x));
                lemma_push_contains(ids@.take(i as int), x);
            }
            if x < self.nodes.len() && !self.nodes[x].disposed && !contains_id(&r, x) {
                proof {
                    lemma_push_contains(r@, x);
                }
                r.push(x);
            }
            i = i + 1;
        }
        assert(ids@.take(ids@.len() as int) == ids@);
        r
    }

    /// Starts a run of effect `e`: clears its dirty mark and opens a scope
    /// that collects its reads. A stopped effect does not run, nor one that
    /// is already running (it is never re-entered): the result is then false
    /// and nothing changes.
    pub fn begin_effect(&mut self, e: usize) -> (run: bool)
        requires
            old(self).wf(),
            e < old(self).effects@.len(),
        ensures
            final(self).wf(),
            keeps_disposed(*old(self), *final(self)),
            run == (!old(self).effects@[e as int].stopped && !running(old(self).frames@, e)),
            !run ==> *final(self) == *old(self),
            run ==> {
                &&& final(self).frames@.len() == old(self).frames@.len() + 1
                &&& forall|f: int|
                    0 <= f < old(self).frames@.len() ==> #[trigger] final(self).frames@[f]
                        == old(self).frames@[f]
                &&& final(self).frames@.last().scope == Scope::Effect(e)
                &&& final(self).frames@.last().reads@.len() == 0
                &&& final(self).effects@.len() == old(self).effects@.len()
                &&& forall|x: int|
                    0 <= x < old(self).effects@.len() && x != e ==> #[trigger] final(self).effects@[x]
                        == old(self).effects@[x]
                &&& final(self).effects@[e as int].deps == old(self).effects@[e as int].deps
                &&& final(self).effects@[e as int].retriggers == old(
                    self,
                ).effects@[e as int].retriggers
                &&& !final(self).effects@[e as int].stopped
                &&& !final(self).effects@[e as int].dirty
                &&& final(self).nodes@ == old(self).nodes@
                &&& final(self).memos@ == old(self).memos@
            },
    {
        if self.effects[e].stopped || is_running(&self.frames, e) {
            return false;
        }
        self.effects[e].dirty = false;
        self.frames.push(Frame { scope: Scope::Effect(e), reads: Vec::new() });
        proof {
            lemma_effect_deps_live(*old(self), *self);
            assert forall|f: int, i: int|
                0 <= f < self.frames@.len() && 0 <= i < self.frames@[f].reads@.len()
                    implies #[trigger] self.frames@[f].reads@[i] < self.nodes@.len() by {
                if f < old(self).frames@.len() {
                    assert(old(self).frames@[f].reads@[i] < old(self).nodes@.len());
                }
            }
            assert forall|f: int| 0 <= f < self.frames@.len() implies self.scope_ok(
                #[trigger] self.frames@[f].scope,
            ) by {
                if f < old(self).frames@.len() {
                    assert(old(self).scope_ok(old(self).frames@[f].scope));
                }
            }
        }
        true
    }

    /// Ends the innermost run, which belongs to effect `e`: its dependencies
    /// become exactly the live nodes it read. A run whose own writes marked
    /// the effect dirty again counts as a re-trigger; past the bound the
    /// effect is suspended and `ReactiveCycle` is reported.
    pub fn end_effect(&mut self, e: usize) -> (r: Result<(), ReactiveError>)
        requires
            old(self).wf(),
            old(self).frames@.len() > 0,
            old(self).frames@.last().scope == Scope::Effect(e),
        ensures
            final(self).wf(),
            keeps_disposed(*old(self), *final(self)),
            final(self).frames@ == old(self).frames@.drop_last(),
            final(self).nodes@ == old(self).nodes@,
            final(self).memos@ == old(self).memos@,
            final(self).effects@.len() == old(self).effects@.len(),
            forall|x: int|
                0 <= x < old(self).effects@.len() && x != e ==> #[trigger] final(self).effects@[x]
                    == old(self).effects@[x],
            forall|x: usize|
                #[trigger] final(self).effects@[e as int].deps@.contains(x) <==> (old(
                    self,
                ).frames@.last().reads@.contains(x) && old(self).live(x as int)),
            ({
                let pre = old(self).effects@[e as int];
                let post = final(self).effects@[e as int];
                match after_run(pre.retriggers, pre.dirty) {
                    None => {
                        &&& r == Err::<(), ReactiveError>(ReactiveError::ReactiveCycle)
                        &&& post.stopped
                        &&& !post.dirty
                    },
                    Some(c) => {
                        &&& r is Ok
                        &&& post.retriggers == c
                        &&& post.stopped == pre.stopped
                        &&& post.dirty == pre.dirty
                    },
                }
            }),
    {
        let frame = self.frames.pop();
        let reads = match frame {
            Some(f) => f.reads,
            None => Vec::new(),
        };
        let deps = self.live_only(&reads);
        self.effects[e].deps = deps;
        let mut r: Result<(), ReactiveError> = Ok(());
        if self.effects[e].dirty {
            if self.effects[e].retriggers >= MAX_RETRIGGERS {
                self.effects[e].stopped = true;
                self.effects[e].dirty = false;
                r = Err(ReactiveError::ReactiveCycle);
            } else {
                self.effects[e].retriggers = self.effects[e].retriggers + 1;
            }
        } else {
            self.effects[e].retriggers = 0;
        }
        proof {
            assert forall|x: int, i: int|
                0 <= x < self.effects@.len() && 0 <= i < self.effects@[x].deps@.len() implies self.live(
                    #[trigger] self.effects@[x].deps@[i] as int,
                ) by {
                if x != e {
                    assert(old(self).live(old(self).effects@[x].deps@[i] as int));
                }
            }
            assert forall|f: int, i: int|
                0 <= f < self.frames@.len() && 0 <= i < self.frames@[f].reads@.len()
                    implies #[trigger] self.frames@[f].reads@[i] < self.nodes@.len() by {
                assert(old(self).frames@[f].reads@[i] < old(self).nodes@.len());
            }
            assert forall|f: int| 0 <= f < self.frames@.len() implies self.scope_ok(
                #[trigger] self.frames@[f].scope,
            ) by {
                assert(old(self).scope_ok(old(self).frames@[f].scope));
            }
        }
        r
    }

    /// The effects that are due to run.
    pub fn dirty_effects(&self) -> (r: Vec<usize>)
        ensures
            forall|x: usize|
                #[trigger] r@.contains(x) <==> (x < self.effects@.len() && self.effects@[x as int].dirty
                    && !self.effects@[x as int].stopped),
    {
        let mut r: Vec<usize> = Vec::new();
        let mut e: usize = 0;
        while e < self.effects.len()
            invariant
                e <= self.effects@.len(),
                forall|x: usize|
                    #[trigger] r@.contains(x) <==> (x < e && self.effects@[x as int].dirty
                        && !self.effects@[x as int].stopped),
            decreases self.effects@.len() - e,
        {
            if self.effects[e].dirty && !self.effects[e].stopped {
                proof {
                    lemma_push_contains(r@, e);
                }
                r.push(e);
            }
            e = e + 1;
        }
        r
    }

    /// The effects notified of changes to node `n`.
    pub fn subscribers(&self, n: usize) -> (r: Vec<usize>)
        ensures
            forall|x: usize|
                #[trigger] r@.contains(x) <==> (x < self.effects@.len() && self.subscribes(
                    x as int,
                    n as int,
                )),
    {
        let mut r: Vec<usize> = Vec::new();
        let mut e: usize = 0;
        while e < self.effects.len()
            invariant
                e <= self.effects@.len(),
                forall|x: usize|
                    #[trigger] r@.contains(x) <==> (x < e && self.subscribes(x as int, n as int)),
            decreases self.effects@.len() - e,
        {
            if !self.effects[e].stopped && contains_id(&self.effects[e].deps, n) {
                proof {
                    lemma_push_contains(r@, e);
                }
                r.push(e);
            }
            e = e + 1;
        }
        r
    }

    /// Disposes node `n`: it can no longer be read or written, and no effect
    /// or memo depends on it any more. A node already disposed is refused.
    pub fn dispose(&mut self, n: usize) -> (r: Result<(), ReactiveError>)
        requires
            old(self).wf(),
        ensures
            final(self).wf(),
            keeps_disposed(*old(self), *final(self)),
            r is Ok <==> old(self).live(n as int),
            r is Ok ==> Runtime::dispose_step(*old(self), *final(self), n),
            r is Err ==> r == Err::<(), ReactiveError>(ReactiveError::UseAfterDispose),
            r is Err ==> *final(self) == *old(self),
    {
        if n >= self.nodes.len() || self.nodes[n].disposed {
            return Err(ReactiveError::UseAfterDispose);
        }
        let old_node = self.nodes[n];
        self.nodes.set(n, Node { disposed: true, ..old_node });
        let ghost pre = self.effects@;
        let mut e: usize = 0;
        while e < self.effects.len()
            invariant
                self.effects@.len() == pre.len(),
                pre == old(self).effects@,
                e <= pre.len(),
                self.nodes@ == old(self).nodes@.update(n as int, Node { disposed: true, ..old_node }),
                self.memos@ == old(self).memos@,
                self.frames@ == old(self).frames@,
                forall|x: int|
                    0 <= x < e ==> {
                        &&& (#[trigger] self.effects@[x]).dirty == pre[x].dirty
                        &&& self.effects@[x].stopped == pre[x].stopped
                        &&& self.effects@[x].retriggers == pre[x].retriggers
                        &&& forall|y: usize|
                            #[trigger] self.effects@[x].deps@.contains(y) <==> (
                            pre[x].deps@.contains(y) && y != n)
                        &&& forall|i: int|
                            0 <= i < self.effects@[x].deps@.len() ==> #[trigger] self.effects@[x].deps@[i]
                                != n && pre[x].deps@.contains(self.effects@[x].deps@[i])
                    },
                forall|x: int| e <= x < pre.len() ==> #[trigger] self.effects@[x] == pre[x],
            decreases pre.len() - e,
        {
            let d = without(&self.effects[e].deps, n);
            self.effects[e].deps = d;
            e = e + 1;
        }
        let ghost pre_m = self.memos@;
        let mut m: usize = 0;
        while m < self.memos.len()
            invariant
                self.memos@.len() == pre_m.len(),
                pre_m == old(self).memos@,
                m <= pre_m.len(),
                self.nodes@ == old(self).nodes@.update(n as int, Node { disposed: true, ..old_node }),
                self.frames@ == old(self).frames@,
                self.effects@.len() == pre.len(),
                forall|x: int|
                    0 <= x < pre.len() ==> {
                        &&& (#[trigger] self.effects@[x]).dirty == pre[x].dirty
                        &&& self.effects@[x].stopped == pre[x].stopped
                        &&& self.effects@[x].retriggers == pre[x].retriggers
                        &&& forall|y: usize|
                            #[trigger] self.effects@[x].deps@.contains(y) <==> (
                            pre[x].deps@.contains(y) && y != n)
                        &&& forall|i: int|
                            0 <= i < self.effects@[x].deps@.len() ==> #[trigger] self.effects@[x].deps@[i]
                                != n && pre[x].deps@.contains(self.effects@[x].deps@[i])
                    },
                forall|x: int|
                    0 <= x < m ==> {
                        &&& (#[trigger] self.memos@[x]).node == pre_m[x].node
                        &&& self.memos@[x].computed == pre_m[x].computed
                        &&& forall|p: (usize, u64)|
                            #[trigger] self.memos@[x].deps@.contains(p) <==> (
                            pre_m[x].deps@.contains(p) && p.0 != n)
                        &&& forall|i: int|
                            0 <= i < self.memos@[x].deps@.len() ==> (
                            #[trigger] self.memos@[x].deps@[i]).0 != n && pre_m[x].deps@.contains(
                                self.memos@[x].deps@[i],
                            )
                    },
                forall|x: int| m <= x < pre_m.len() ==> #[trigger] self.memos@[x] == pre_m[x],
            decreases pre_m.len() - m,
        {
            let d = without_pairs(&self.memos[m].deps, n);
            self.memos[m].deps = d;
            m = m + 1;
        }
        proof {
            assert forall|x: int, i: int|
                0 <= x < self.effects@.len() && 0 <= i < self.effects@[x].deps@.len() implies self.live(
                    #[trigger] self.effects@[x].deps@[i] as int,
                ) by {
                let y = self.effects@[x].deps@[i];
                assert(pre[x].deps@.contains(y));
                let j = choose|j: int| 0 <= j < pre[x].deps@.len() && pre[x].deps@[j] == y;
                assert(old(self).live(old(self).effects@[x].deps@[j] as int));
            }
            assert forall|x: int, i: int|
                0 <= x < self.memos@.len() && 0 <= i < self.memos@[x].deps@.len() implies {
                    let d = #[trigger] self.memos@[x].deps@[i];
                    &&& self.live(d.0 as int)
                    &&& d.1 <= self.nodes@[d.0 as int].generation
                } by {
                let y = self.memos@[x].deps@[i];
                assert(pre_m[x].deps@.contains(y));
                let j = choose|j: int| 0 <= j < pre_m[x].deps@.len() && pre_m[x].deps@[j] == y;
                assert(old(self).memos@[x].deps@[j] == y);
            }
            assert forall|x: int| 0 <= x < self.memos@.len() implies #[trigger] self.memos@[x].node
                < self.nodes@.len() by {
                assert(old(self).memos@[x].node < old(self).nodes@.len());
            }
        }
        Ok(())
    }

    /// Registers a memoized computation with its own node; it starts
    /// stale. Returns the memo's index.
    pub fn create_memo(&mut self) -> (m: usize)
        requires
            old(self).wf(),
        ensures
            final(self).wf(),
            keeps_disposed(*old(self), *final(self)),
            m == old(self).memos@.len(),
            final(self).memos@.len() == m + 1,
            forall|x: int| 0 <= x < m ==> #[trigger] final(self).memos@[x] == old(self).memos@[x],
            final(self).memos@[m as int].node == old(self).nodes@.len(),
            final(self).memos@[m as int].deps@.len() == 0,
            !final(self).memos@[m as int].computed,
            final(self).nodes@ == old(self).nodes@.push(Node { value: 0, generation: 0, disposed: false }),
            final(self).effects@ == old(self).effects@,
            final(self).frames@ == old(self).frames@,
    {
        let n = self.create_cell(0);
        let m = self.memos.len();
        self.memos.push(Memo { node: n, deps: Vec::new(), computed: false });
        proof {
            assert forall|x: int, i: int|
                0 <= x < self.memos@.len() && 0 <= i < self.memos@[x].deps@.len() implies {
                    let d = #[trigger] self.memos@[x].deps@[i];
                    &&& self.live(d.0 as int)
                    &&& d.1 <= self.nodes@[d.0 as int].generation
                } by {
                let d = self.memos@[x].deps@[i];
                assert(old(self).memos@[x].deps@[i] == d);
            }
            assert forall|f: int| 0 <= f < self.frames@.len() implies self.scope_ok(
                #[trigger] self.frames@[f].scope,
            ) by {
                assert(old(self).scope_ok(old(self).frames@[f].scope));
            }
        }
        m
    }

    /// Whether memo `m` must be evaluated again before its cached value is
    /// used.
    pub fn memo_is_stale(&self, m: usize) -> (b: bool)
        requires
            self.wf(),
            m < self.memos@.len(),
        ensures
            b == self.stale(m as int),
    {
        if !self.memos[m].computed {
            return true;
        }
        let mut i: usize = 0;
        while i < self.memos[m].deps.len()
            invariant
                self.wf(),
                m < self.memos@.len(),
                i <= self.memos@[m as int].deps@.len(),
                forall|j: int|
                    0 <= j < i ==> (#[trigger] self.memos@[m as int].deps@[j]).1 >= self.nodes@[self.memos@[m as int].deps@[j].0 as int].generation,
            decreases self.memos@[m as int].deps@.len() - i,
        {
            let (d, seen) = self.memos[m].deps[i];
            proof {
                assert(self.live(self.memos@[m as int].deps@[i as int].0 as int));
            }
            if seen < self.nodes[d].generation {
                return true;
            }
            i = i + 1;
        }
        false
    }

    /// The memos that must be evaluated again, so that changes reach the
    /// effects that read them; a host evaluates these before running dirty
    /// effects.
    pub fn stale_memos(&self) -> (r: Vec<usize>)
        requires
            self.wf(),
        ensures
            forall|m: usize| #[trigger] r@.contains(m) <==> (m < self.memos@.len() && self.stale(m as int)),
    {
        let mut r: Vec<usize> = Vec::new();
        let mut m: usize = 0;
        while m < self.memos.len()
            invariant
                self.wf(),
                m <= self.memos@.len(),
                forall|x: usize| #[trigger] r@.contains(x) <==> (x < m && self.stale(x as int)),
            decreases self.memos@.len() - m,
        {
            if self.memo_is_stale(m) {
                proof {
                    lemma_push_contains(r@, m);
                }
                r.push(m);
            }
            m = m + 1;
        }
        r
    }

    /// The next step of propagation: stale memos come first, so that an
    /// effect never runs while a memo it may read is out of date; then dirty
    /// effects.
    pub fn next_step(&self) -> (st: Step)
        requires
            self.wf(),
        ensures
            st matches Step::EvaluateMemo(m) ==> m < self.memos@.len() && self.stale(m as int),
            st matches Step::RunEffect(e) ==> {
                &&& e < self.effects@.len()
                &&& self.effects@[e as int].dirty
                &&& !self.effects@[e as int].stopped
                &&& forall|m: int| 0 <= m < self.memos@.len() ==> !self.stale(m)
            },
            st is Settled ==> {
                &&& forall|m: int| 0 <= m < self.memos@.len() ==> !self.stale(m)
                &&& forall|e: int|
                    0 <= e < self.effects@.len() ==> !(self.effects@[e].dirty
                        && !self.effects@[e].stopped)
            },
    {
        let memos = self.stale_memos();
        let _nm = self.memos.len();
        let _ne = self.effects.len();
        if memos.len() > 0 {
            assert(memos@.contains(memos@[0]));
            return Step::EvaluateMemo(memos[0]);
        }
        assert forall|m: int| 0 <= m < self.memos@.len() implies !self.stale(m) by {
            if self.stale(m) {
                assert((m as usize) as int == m);
                assert(memos@.contains(m as usize));
            }
        }
        let effects = self.dirty_effects();
        if effects.len() > 0 {
            assert(effects@.contains(effects@[0]));
            return Step::RunEffect(effects[0]);
        }
        assert forall|e: int| 0 <= e < self.effects@.len() implies !(self.effects@[e].dirty
            && !self.effects@[e].stopped) by {
            if self.effects@[e].dirty && !self.effects@[e].stopped {
                assert((e as usize) as int == e);
                assert(effects@.contains(e as usize));
            }
        }
        Step::Settled
    }

    /// Opens an evaluation of memo `m`. Refused when its node was disposed.
    pub fn begin_memo(&mut self, m: usize) -> (r: Result<(), ReactiveError>)
        requires
            old(self).wf(),
            m < old(self).memos@.len(),
        ensures
            final(self).wf(),
            keeps_disposed(*old(self), *final(self)),
            r is Ok <==> old(self).live(old(self).memos@[m as int].node as int),
            r is Err ==> r == Err::<(), ReactiveError>(ReactiveError::UseAfterDispose),
            r is Err ==> *final(self) == *old(self),
            r is Ok ==> {
                &&& final(self).frames@.len() == old(self).frames@.len() + 1
                &&& forall|f: int|
                    0 <= f < old(self).frames@.len() ==> #[trigger] final(self).frames@[f]
                        == old(self).frames@[f]
                &&& final(self).frames@.last().scope == Scope::Memo(m)
                &&& final(self).frames@.last().reads@.len() == 0
                &&& final(self).nodes@ == old(self).nodes@
                &&& final(self).effects@ == old(self).effects@
                &&& final(self).memos@ == old(self).memos@
            },
    {
        let node = self.memos[m].node;
        if self.nodes[node].disposed {
            return Err(ReactiveError::UseAfterDispose);
        }
        self.frames.push(Frame { scope: Scope::Memo(m), reads: Vec::new() });
        proof {
            assert forall|f: int, i: int|
                0 <= f < self.frames@.len() && 0 <= i < self.frames@[f].reads@.len()
                    implies #[trigger] self.frames@[f].reads@[i] < self.nodes@.len() by {
                if f < old(self).frames@.len() {
                    assert(old(self).frames@[f].reads@[i] < old(self).nodes@.len());
                }
            }
            assert forall|f: int| 0 <= f < self.frames@.len() implies self.scope_ok(
                #[trigger] self.frames@[f].scope,
            ) by {
                if f < old(self).frames@.len() {
                    assert(old(self).scope_ok(old(self).frames@[f].scope));
                }
            }
        }
        Ok(())
    }

    /// Pairs each live node of `ids` with its current generation.
    fn stamped(&self, ids: &Vec<usize>) -> (r: Vec<(usize, u64)>)
        requires
            forall|i: int| 0 <= i < ids@.len() ==> self.live(#[trigger] ids@[i] as int),
        ensures
            forall|p: (usize, u64)|
                #[trigger] r@.contains(p) <==> (ids@.contains(p.0) && p.1
                    == self.nodes@[p.0 as int].generation),
            forall|i: int|
                0 <= i < r@.len() ==> self.live((#[trigger] r@[i]).0 as int) && r@[i].1
                    == self.nodes@[r@[i].0 as int].generation,
    {
        let mut r: Vec<(usize, u64)> = Vec::new();
        let mut i: usize = 0;
        while i < ids.len()
            invariant
                i <= ids@.len(),
                forall|i: int| 0 <= i < ids@.len() ==> self.live(#[trigger] ids@[i] as int),
                forall|p: (usize, u64)|
                    #[trigger] r@.contains(p) <==> (ids@.take(i as int).contains(p.0) && p.1
                        == self.nodes@[p.0 as int].generation),
                forall|j: int|
                    0 <= j < r@.len() ==> self.live((#[trigger] r@[j]).0 as int) && r@[j].1
                        == self.nodes@[r@[j].0 as int].generation,
            decreases ids@.len() - i,
        {
            let x = ids[i];
            let p = (x, self.nodes[x].generation);
            proof {
                assert(ids@.take(i + 1) == ids@.take(i as int).push(x));
                lemma_push_contains(ids@.take(i as int), x);
                lemma_push_contains(r@, p);
            }
            r.push(p);
            i = i + 1;
        }
        assert(ids@.take(ids@.len() as int) == ids@);
        r
    }

    /// Ends the innermost evaluation, which belongs to memo `m`, with the
    /// computed `value`. The memo records the live nodes read and their
    /// generations. Only a value that differs from the cached one (or a
    /// first value) is stored, advances the memo's generation and marks its
    /// subscribers dirty; an equal value changes no effect at all. Returns
    /// whether the value changed. Refused when the memo's node was disposed
    /// meanwhile.
    pub fn end_memo(&mut self, m: usize, value: i64) -> (r: Result<bool, ReactiveError>)
        requires
            old(self).wf(),
            old(self).frames@.len() > 0,
            old(self).frames@.last().scope == Scope::Memo(m),
            old(self).nodes@[old(self).memos@[m as int].node as int].generation < u64::MAX,
        ensures
            final(self).wf(),
            keeps_disposed(*old(self), *final(self)),
            final(self).frames@ == old(self).frames@.drop_last(),
            ({
                let node = old(self).memos@[m as int].node;
                let changed = !old(self).memos@[m as int].computed || value != old(
                    self,
                ).nodes@[node as int].value;
                if !old(self).live(node as int) {
                    &&& r == Err::<bool, ReactiveError>(ReactiveError::UseAfterDispose)
                    &&& final(self).nodes@ == old(self).nodes@
                    &&& final(self).effects@ == old(self).effects@
                    &&& final(self).memos@ == old(self).memos@
                } else {
                    &&& r == Ok::<bool, ReactiveError>(changed)
                    &&& final(self).memos@.len() == old(self).memos@.len()
                    &&& forall|x: int|
                        0 <= x < old(self).memos@.len() && x != m ==> #[trigger] final(self).memos@[x]
                            == old(self).memos@[x]
                    &&& final(self).memos@[m as int].node == node
                    &&& final(self).memos@[m as int].computed
                    &&& forall|p: (usize, u64)|
                        #[trigger] final(self).memos@[m as int].deps@.contains(p) <==> (old(
                            self,
                        ).frames@.last().reads@.contains(p.0) && old(self).live(p.0 as int) && p.1
                            == old(self).nodes@[p.0 as int].generation)
                    &&& changed ==> final(self).nodes@ == old(self).nodes@.update(
                        node as int,
                        Node {
                            value,
                            generation: (old(self).nodes@[node as int].generation + 1) as u64,
                            disposed: false,
                        },
                    )
                    &&& changed ==> marks(
                        old(self).effects@,
                        final(self).frames@,
                        final(self).effects@,
                        node,
                    )
                    &&& !changed ==> final(self).nodes@ == old(self).nodes@
                    &&& !changed ==> final(self).effects@ == old(self).effects@
                }
            }),
    {
        let frame = self.frames.pop();
        let reads = match frame {
            Some(f) => f.reads,
            None => Vec::new(),
        };
        proof {
            assert forall|f: int, i: int|
                0 <= f < self.frames@.len() && 0 <= i < self.frames@[f].reads@.len()
                    implies #[trigger] self.frames@[f].reads@[i] < self.nodes@.len() by {
                assert(old(self).frames@[f].reads@[i] < old(self).nodes@.len());
            }
            assert forall|f: int| 0 <= f < self.frames@.len() implies self.scope_ok(
                #[trigger] self.frames@[f].scope,
            ) by {
                assert(old(self).scope_ok(old(self).frames@[f].scope));
            }
        }
        let node = self.memos[m].node;
        if self.nodes[node].disposed {
            return Err(ReactiveError::UseAfterDispose);
        }
        let live = self.live_only(&reads);
        let deps = self.stamped(&live);
        let changed = !self.memos[m].computed || value != self.nodes[node].value;
        self.memos[m].deps = deps;
        self.memos[m].computed = true;
        proof {
            assert forall|x: int, i: int|
                0 <= x < self.memos@.len() && 0 <= i < self.memos@[x].deps@.len() implies {
                    let d = #[trigger] self.memos@[x].deps@[i];
                    &&& self.live(d.0 as int)
                    &&& d.1 <= self.nodes@[d.0 as int].generation
                } by {
                if x != m {
                    assert(old(self).memos@[x].deps@[i] == self.memos@[x].deps@[i]);
                }
            }
            assert forall|x: int| 0 <= x < self.memos@.len() implies #[trigger] self.memos@[x].node
                < self.nodes@.len() by {
                assert(old(self).memos@[x].node < old(self).nodes@.len());
            }
        }
        if changed {
            let g = self.nodes[node].generation;
            self.nodes.set(node, Node { value, generation: g + 1, disposed: false });
            self.notify(node);
            proof {
                lemma_effect_deps_live(*old(self), *self);
                assert forall|x: int, i: int|
                    0 <= x < self.memos@.len() && 0 <= i < self.memos@[x].deps@.len() implies {
                        let d = #[trigger] self.memos@[x].deps@[i];
                        &&& self.live(d.0 as int)
                        &&& d.1 <= self.nodes@[d.0 as int].generation
                    } by {
                    let d = self.memos@[x].deps@[i];
                    assert(d.1 <= old(self).nodes@[d.0 as int].generation);
                }
            }
        }
        Ok(changed)
    }
}

/// No node disappears, and a disposed node stays disposed.
pub open spec fn keeps_disposed(pre: Runtime, post: Runtime) -> bool {
    &&& pre.nodes@.len() <= post.nodes@.len()
    &&& forall|n: int| 0 <= n < pre.nodes@.len() && #[trigger] pre.nodes@[n].disposed ==> post.nodes@[n].disposed
}

/// Disposal is permanent: across any run of store operations after a node
/// was disposed (each of which keeps disposed nodes disposed, as every
/// mutating operation of `Runtime` states), every read of it fails with
/// `UseAfterDispose`.
pub proof fn lemma_disposal_is_permanent(pre: Runtime, states: Seq<Runtime>, n: usize)
    requires
        states.len() > 0,
        Runtime::dispose_step(pre, states[0], n),
        forall|i: int| 0 <= i < states.len() - 1 ==> keeps_disposed(#[trigger] states[i], states[i + 1]),
    ensures
        forall|k: int|
            0 <= k < states.len() ==> #[trigger] states[k].read_result(n) == Err::<
                i64,
                ReactiveError,
            >(ReactiveError::UseAfterDispose),
{
    assert forall|k: int| 0 <= k < states.len() implies #[trigger] states[k].read_result(n) == Err::<
        i64,
        ReactiveError,
    >(ReactiveError::UseAfterDispose) by {
        lemma_disposed_through(pre, states, n, k);
    }
}

proof fn lemma_disposed_through(pre: Runtime, states: Seq<Runtime>, n: usize, k: int)
    requires
        Runtime::dispose_step(pre, states[0], n),
        forall|i: int| 0 <= i < states.len() - 1 ==> keeps_disposed(#[trigger] states[i], states[i + 1]),
        0 <= k < states.len(),
    ensures
        n < states[k].nodes@.len(),
        states[k].nodes@[n as int].disposed,
    decreases k,
{
    if k > 0 {
        lemma_disposed_through(pre, states, n, k - 1);
        assert(keeps_disposed(states[k - 1], states[k]));
    }
}

/// `states` runs through committed writes: write `i` stores `values[i]` in
/// node `targets[i]` and leads from `states[i]` to `states[i + 1]`.
pub open spec fn write_chain(states: Seq<Runtime>, targets: Seq<usize>, values: Seq<i64>) -> bool {
    &&& states.len() == targets.len() + 1
    &&& values.len() == targets.len()
    &&& forall|i: int|
        0 <= i < targets.len() ==> Runtime::write_step(
            #[trigger] states[i],
            states[i + 1],
            targets[i],
            values[i],
        )
}

proof fn lemma_chain_keeps_effect(
    states: Seq<Runtime>,
    targets: Seq<usize>,
    values: Seq<i64>,
    e: int,
    k: int,
)
    requires
        write_chain(states, targets, values),
        0 <= e < states[0].effects@.len(),
        forall|i: int| 0 <= i < targets.len() ==> !states[0].effects@[e].deps@.contains(#[trigger] targets[i]),
        forall|i: int| 0 <= i < targets.len() ==> !reads_in_run(states[0].frames@, e as usize, #[trigger] targets[i]),
        0 <= k < states.len(),
    ensures
        states[k].effects@.len() == states[0].effects@.len(),
        states[k].effects@[e] == states[0].effects@[e],
    decreases k,
{
    if k > 0 {
        lemma_chain_keeps_effect(states, targets, values, e, k - 1);
        assert(Runtime::write_step(states[k - 1], states[k], targets[k - 1], values[k - 1]));
        assert(!states[0].effects@[e].deps@.contains(targets[k - 1]));
        assert(!reads_in_run(states[0].frames@, e as usize, targets[k - 1]));
        lemma_chain_keeps_frames(states, targets, values, k - 1);
    }
}

proof fn lemma_chain_keeps_frames(states: Seq<Runtime>, targets: Seq<usize>, values: Seq<i64>, k: int)
    requires
        write_chain(states, targets, values),
        0 <= k < states.len(),
    ensures
        states[k].frames@ == states[0].frames@,
    decreases k,
{
    if k > 0 {
        lemma_chain_keeps_frames(states, targets, values, k - 1);
        assert(Runtime::write_step(states[k - 1], states[k], targets[k - 1], values[k - 1]));
    }
}

/// Writes to cells that an effect neither depends on nor is reading in a run
/// in progress never mark it dirty: over any run of committed writes to
/// such nodes, the effect is exactly as it was before them.
pub proof fn lemma_unrelated_writes_leave_effect(
    states: Seq<Runtime>,
    targets: Seq<usize>,
    values: Seq<i64>,
    e: int,
)
    requires
        write_chain(states, targets, values),
        0 <= e < states[0].effects@.len(),
        forall|i: int| 0 <= i < targets.len() ==> !states[0].effects@[e].deps@.contains(#[trigger] targets[i]),
        forall|i: int| 0 <= i < targets.len() ==> !reads_in_run(states[0].frames@, e as usize, #[trigger] targets[i]),
    ensures
        states.last().effects@[e] == states[0].effects@[e],
        states.last().effects@[e].dirty == states[0].effects@[e].dirty,
{
    lemma_chain_keeps_effect(states, targets, values, e, states.len() - 1);
}

proof fn lemma_retrigger_chain_live(count: u64, k: nat)
    requires
        count <= MAX_RETRIGGERS,
        k <= MAX_RETRIGGERS - count,
    ensures
        retrigger_chain(count, k) == Some((count + k) as u64),
    decreases k,
{
    if k > 0 {
        lemma_retrigger_chain_live(count, (k - 1) as nat);
    }
}

/// An effect that re-triggers itself on every run is suspended within a
/// bounded number of runs: from any reachable count, it keeps running for
/// `MAX_RETRIGGERS - count` more re-triggered runs and the next one
/// suspends it.
pub proof fn lemma_self_trigger_suspends(count: u64)
    requires
        count <= MAX_RETRIGGERS,
    ensures
        forall|k: nat| k <= MAX_RETRIGGERS - count ==> #[trigger] retrigger_chain(count, k) is Some,
        retrigger_chain(count, (MAX_RETRIGGERS - count + 1) as nat) is None,
{
    assert forall|k: nat| k <= MAX_RETRIGGERS - count implies #[trigger] retrigger_chain(count, k) is Some by {
        lemma_retrigger_chain_live(count, k);
    }
    lemma_retrigger_chain_live(count, (MAX_RETRIGGERS - count) as nat);
    assert(retrigger_chain(count, (MAX_RETRIGGERS - count + 1) as nat) == match retrigger_chain(
        count,
        (MAX_RETRIGGERS - count) as nat,
    ) {
        Some(c) => after_run(c, true),
        None => None,
    });
}

/// A committed write to node `n` invalidates every memo that read `n` in its
/// latest evaluation: the memo is stale afterwards, so the change is carried
/// on through it.
pub proof fn lemma_write_makes_readers_stale(pre: Runtime, post: Runtime, n: usize, v: i64, m: int, i: int)
    requires
        pre.wf(),
        Runtime::write_step(pre, post, n, v),
        pre.nodes@[n as int].generation < u64::MAX,
        0 <= m < pre.memos@.len(),
        0 <= i < pre.memos@[m].deps@.len(),
        pre.memos@[m].deps@[i].0 == n,
    ensures
        post.stale(m),
{
    let d = pre.memos@[m].deps@[i];
    assert(d.1 <= pre.nodes@[n as int].generation);
    assert(post.memos@[m].deps@[i] == d);
    assert(post.nodes@[n as int].generation == pre.nodes@[n as int].generation + 1);
}

} // verus!
