use vstd::prelude::*;
use crate::error::ReactiveError;
use crate::runtime::{Runtime, keeps_disposed};

verus! {

/// The observable state of a resource. Each non-idle state carries the
/// generation of the input version that produced it.
#[derive(Debug, Clone, Copy, PartialEq, Eq, Structural)]
pub enum ResourceState {
    Idle,
    Pending(u64),
    Ready(i64, u64),
    Failed(i64, u64),
}

/// An async value driven by a reactive input. Every change of the input
/// starts a new generation; only the completion of the latest generation is
/// committed.
#[derive(Debug, Clone, Copy)]
pub struct Resource {
    pub latest: u64,
    pub state: ResourceState,
}

/// What a finished async operation reports: a value or an error code.
pub type Outcome = Result<i64, i64>;

pub open spec fn settled_state(outcome: Outcome, generation: u64) -> ResourceState {
    match outcome {
        Ok(v) => ResourceState::Ready(v, generation),
        Err(e) => ResourceState::Failed(e, generation),
    }
}

impl Resource {
    /// The stored state always belongs to the latest started generation.
    pub open spec fn wf(self) -> bool {
        match self.state {
            ResourceState::Idle => self.latest == 0,
            ResourceState::Pending(g) => g == self.latest && g >= 1,
            ResourceState::Ready(_, g) => g == self.latest && g >= 1,
            ResourceState::Failed(_, g) => g == self.latest && g >= 1,
        }
    }

    /// The resource after its input changed and a new operation started.
    pub open spec fn started(self) -> Resource {
        Resource {
            latest: (self.latest + 1) as u64,
            state: ResourceState::Pending((self.latest + 1) as u64),
        }
    }

    /// Whether a completion for `generation` is the one awaited.
    pub open spec fn awaits(self, generation: u64) -> bool {
        generation == self.latest && self.state == ResourceState::Pending(generation)
    }

    /// The resource after the operation of `generation` finished: committed
    /// when it is the awaited one, discarded as stale otherwise.
    pub open spec fn completed(self, generation: u64, outcome: Outcome) -> Resource {
        if self.awaits(generation) {
            Resource { latest: self.latest, state: settled_state(outcome, generation) }
        } else {
            self
        }
    }

    pub fn new() -> (r: Resource)
        ensures
            r.wf(),
            r.latest == 0,
            r.state == ResourceState::Idle,
    {
        Resource { latest: 0, state: ResourceState::Idle }
    }

    /// Starts a new generation for a changed input and returns its stamp.
    pub fn start(&mut self) -> (generation: u64)
        requires
            old(self).wf(),
            old(self).latest < u64::MAX,
        ensures
            *final(self) == old(self).started(),
            final(self).wf(),
            generation == final(self).latest,
            generation == old(self).latest + 1,
    {
        self.latest = self.latest + 1;
        self.state = ResourceState::Pending(self.latest);
        self.latest
    }

    /// Reports the outcome of the operation started as `generation`.
    /// Returns whether it was committed; a stale outcome is dropped.
    pub fn complete(&mut self, generation: u64, outcome: Outcome) -> (committed: bool)
        requires
            old(self).wf(),
        ensures
            *final(self) == old(self).completed(generation, outcome),
            final(self).wf(),
            committed == old(self).awaits(generation),
    {
        let awaited = match self.state {
            ResourceState::Pending(g) => g == generation && generation == self.latest,
            _ => false,
        };
        if awaited {
            self.state = match outcome {
                Ok(v) => ResourceState::Ready(v, generation),
                Err(e) => ResourceState::Failed(e, generation),
            };
        }
        awaited
    }

    /// The current state.
    pub fn get(&self) -> (s: ResourceState)
        ensures
            s == self.state,
    {
        self.state
    }

    pub fn is_pending(&self) -> (b: bool)
        ensures
            b == (self.state is Pending),
    {
        match self.state {
            ResourceState::Pending(_) => true,
            _ => false,
        }
    }

    /// The committed value, if the latest operation succeeded.
    pub fn value(&self) -> (v: Option<i64>)
        ensures
            v == (match self.state {
                ResourceState::Ready(x, _) => Some(x),
                _ => None,
            }),
    {
        match self.state {
            ResourceState::Ready(x, _) => Some(x),
            _ => None,
        }
    }
}

/// The code a resource publishes for its state in its cell.
pub open spec fn state_code(s: ResourceState) -> i64 {
    match s {
        ResourceState::Idle => 0,
        ResourceState::Pending(_) => 1,
        ResourceState::Ready(_, _) => 2,
        ResourceState::Failed(_, _) => 3,
    }
}

fn code_of(s: ResourceState) -> (c: i64)
    ensures
        c == state_code(s),
{
    match s {
        ResourceState::Idle => 0,
        ResourceState::Pending(_) => 1,
        ResourceState::Ready(_, _) => 2,
        ResourceState::Failed(_, _) => 3,
    }
}

impl Resource {
    /// `start`, published through `cell`: every state change is written to
    /// the cell, so that effects reading the resource are notified. A
    /// disposed cell is refused and nothing changes.
    pub fn start_tracked(&mut self, rt: &mut Runtime, cell: usize) -> (r: Result<u64, ReactiveError>)
        requires
            old(self).wf(),
            old(self).latest < u64::MAX,
            old(rt).wf(),
            old(rt).live(cell as int) ==> old(rt).nodes@[cell as int].generation < u64::MAX,
        ensures
            final(self).wf(),
            final(rt).wf(),
            keeps_disposed(*old(rt), *final(rt)),
            r is Ok <==> old(rt).live(cell as int),
            r is Err ==> r == Err::<u64, ReactiveError>(ReactiveError::UseAfterDispose)
                && *final(self) == *old(self) && *final(rt) == *old(rt),
            r is Ok ==> {
                &&& *final(self) == old(self).started()
                &&& r == Ok::<u64, ReactiveError>(final(self).latest)
                &&& Runtime::write_step(*old(rt), *final(rt), cell, state_code(final(self).state))
            },
    {
        if rt.read(cell).is_err() {
            return Err(ReactiveError::UseAfterDispose);
        }
        let g = self.start();
        let _ = rt.write(cell, code_of(self.state));
        Ok(g)
    }

    /// `complete`, published through `cell` when the outcome is committed.
    /// A disposed cell is refused and nothing changes.
    pub fn complete_tracked(
        &mut self,
        rt: &mut Runtime,
        cell: usize,
        generation: u64,
        outcome: Outcome,
    ) -> (r: Result<bool, ReactiveError>)
        requires
            old(self).wf(),
            old(rt).wf(),
            old(rt).live(cell as int) ==> old(rt).nodes@[cell as int].generation < u64::MAX,
        ensures
            final(self).wf(),
            final(rt).wf(),
            keeps_disposed(*old(rt), *final(rt)),
            r is Ok <==> old(rt).live(cell as int),
            r is Err ==> r == Err::<bool, ReactiveError>(ReactiveError::UseAfterDispose)
                && *final(self) == *old(self) && *final(rt) == *old(rt),
            r is Ok ==> {
                &&& *final(self) == old(self).completed(generation, outcome)
                &&& r == Ok::<bool, ReactiveError>(old(self).awaits(generation))
                &&& old(self).awaits(generation) ==> Runtime::write_step(
                    *old(rt),
                    *final(rt),
                    cell,
                    state_code(final(self).state),
                )
                &&& !old(self).awaits(generation) ==> *final(rt) == *old(rt)
            },
    {
        if rt.read(cell).is_err() {
            return Err(ReactiveError::UseAfterDispose);
        }
        let committed = self.complete(generation, outcome);
        if committed {
            let _ = rt.write(cell, code_of(self.state));
        }
        Ok(committed)
    }

    /// The current state, read through `cell` so that the innermost
    /// evaluation in progress comes to depend on the resource.
    pub fn get_tracked(&self, rt: &mut Runtime, cell: usize) -> (r: Result<ResourceState, ReactiveError>)
        requires
            old(rt).wf(),
        ensures
            final(rt).wf(),
            keeps_disposed(*old(rt), *final(rt)),
            Runtime::track_step(*old(rt), *final(rt), cell),
            r is Ok <==> old(rt).live(cell as int),
            r is Ok ==> r == Ok::<ResourceState, ReactiveError>(self.state),
            r is Err ==> r == Err::<ResourceState, ReactiveError>(ReactiveError::UseAfterDispose),
    {
        match rt.track(cell) {
            Ok(_) => Ok(self.state),
            Err(e) => Err(e),
        }
    }
}

/// Two inputs in a row: whichever order the two operations finish in, the
/// committed state is the outcome for the second input, never the first.
pub proof fn lemma_resource_latest_wins(r: Resource, first: Outcome, second: Outcome)
    requires
        r.wf(),
        r.latest + 2 <= u64::MAX,
    ensures
        ({
            let r1 = r.started();
            let r2 = r1.started();
            &&& r2.completed(r2.latest, second).completed(r1.latest, first).state
                == settled_state(second, r2.latest)
            &&& r2.completed(r1.latest, first).completed(r2.latest, second).state
                == settled_state(second, r2.latest)
        }),
{
}

/// The observable slot of an action.
#[derive(Debug, Clone, Copy)]
pub struct ActionSlot {
    /// Generation of the most recent dispatch (0: never dispatched).
    pub latest: u64,
    /// Input of the most recent dispatch.
    pub input: Option<i64>,
    /// Whether the most recent dispatch is still unresolved.
    pub pending: bool,
    /// Outcome of the most recent dispatch, once it resolved; before that,
    /// the outcome of the last dispatch that resolved while it was current.
    pub value: Option<Outcome>,
}

/// One resolved dispatch, as kept in an action's history.
#[derive(Debug, Clone, Copy)]
pub struct Completion {
    pub generation: u64,
    pub outcome: Outcome,
}

/// An explicitly dispatched async operation.
#[derive(Debug)]
pub struct Action {
    pub slot: ActionSlot,
    pub history: Vec<Completion>,
}

impl ActionSlot {
    /// The slot after a dispatch of `input`.
    pub open spec fn dispatched(self, input: i64) -> ActionSlot {
        ActionSlot {
            latest: (self.latest + 1) as u64,
            input: Some(input),
            pending: true,
            value: self.value,
        }
    }

    /// Whether the outcome of `generation` is the one the slot waits for.
    pub open spec fn awaits(self, generation: u64) -> bool {
        self.pending && generation == self.latest
    }

    /// The slot after the dispatch `generation` resolved: only the most
    /// recent dispatch reaches the slot.
    pub open spec fn resolved(self, generation: u64, outcome: Outcome) -> ActionSlot {
        if self.awaits(generation) {
            ActionSlot { pending: false, value: Some(outcome), ..self }
        } else {
            self
        }
    }
}

impl Action {
    pub fn new() -> (a: Action)
        ensures
            a.slot.latest == 0,
            a.slot.input is None,
            !a.slot.pending,
            a.slot.value is None,
            a.history@.len() == 0,
    {
        Action {
            slot: ActionSlot { latest: 0, input: None, pending: false, value: None },
            history: Vec::new(),
        }
    }

    /// Records `input`, starts a new generation and returns its stamp.
    pub fn dispatch(&mut self, input: i64) -> (generation: u64)
        requires
            old(self).slot.latest < u64::MAX,
        ensures
            final(self).slot == old(self).slot.dispatched(input),
            final(self).history@ == old(self).history@,
            generation == final(self).slot.latest,
    {
        self.slot = ActionSlot {
            latest: self.slot.latest + 1,
            input: Some(input),
            pending: true,
            value: self.slot.value,
        };
        self.slot.latest
    }

    /// Reports the outcome of dispatch `generation`. Every outcome joins the
    /// history; only the most recent dispatch's outcome reaches the slot.
    /// Returns whether it did.
    pub fn resolve(&mut self, generation: u64, outcome: Outcome) -> (current: bool)
        ensures
            final(self).slot == old(self).slot.resolved(generation, outcome),
            final(self).history@ == old(self).history@.push(
                Completion { generation, outcome },
            ),
            current == old(self).slot.awaits(generation),
    {
        let current = self.slot.pending && generation == self.slot.latest;
        if current {
            self.slot.pending = false;
            self.slot.value = Some(outcome);
        }
        self.history.push(Completion { generation, outcome });
        current
    }

    pub fn input(&self) -> (i: Option<i64>)
        ensures
            i == self.slot.input,
    {
        self.slot.input
    }

    pub fn pending(&self) -> (p: bool)
        ensures
            p == self.slot.pending,
    {
        self.slot.pending
    }

    pub fn value(&self) -> (v: Option<Outcome>)
        ensures
            v == self.slot.value,
    {
        self.slot.value
    }
}

impl Action {
    /// `dispatch`, published through `cell`: 1 (pending) is written to the
    /// cell, so that effects reading the action are notified; a resolution
    /// that reaches the slot writes 0. A disposed cell is refused and nothing changes.
    pub fn dispatch_tracked(&mut self, rt: &mut Runtime, cell: usize, input: i64) -> (r: Result<
        u64,
        ReactiveError,
    >)
        requires
            old(self).slot.latest < u64::MAX,
            old(rt).wf(),
            old(rt).live(cell as int) ==> old(rt).nodes@[cell as int].generation < u64::MAX,
        ensures
            final(rt).wf(),
            keeps_disposed(*old(rt), *final(rt)),
            r is Ok <==> old(rt).live(cell as int),
            r is Err ==> r == Err::<u64, ReactiveError>(ReactiveError::UseAfterDispose)
                && final(self).slot == old(self).slot && final(self).history@ == old(self).history@
                && *final(rt) == *old(rt),
            r is Ok ==> {
                &&& final(self).slot == old(self).slot.dispatched(input)
                &&& final(self).history@ == old(self).history@
                &&& r == Ok::<u64, ReactiveError>(final(self).slot.latest)
                &&& Runtime::write_step(*old(rt), *final(rt), cell, 1)
            },
    {
        if rt.read(cell).is_err() {
            return Err(ReactiveError::UseAfterDispose);
        }
        let g = self.dispatch(input);
        let _ = rt.write(cell, 1);
        Ok(g)
    }

    /// `resolve`, published through `cell` when the outcome reaches the
    /// slot. A disposed cell is refused and nothing changes.
    pub fn resolve_tracked(
        &mut self,
        rt: &mut Runtime,
        cell: usize,
        generation: u64,
        outcome: Outcome,
    ) -> (r: Result<bool, ReactiveError>)
        requires
            old(rt).wf(),
            old(rt).live(cell as int) ==> old(rt).nodes@[cell as int].generation < u64::MAX,
        ensures
            final(rt).wf(),
            keeps_disposed(*old(rt), *final(rt)),
            r is Ok <==> old(rt).live(cell as int),
            r is Err ==> r == Err::<bool, ReactiveError>(ReactiveError::UseAfterDispose)
                && final(self).slot == old(self).slot && final(self).history@ == old(self).history@
                && *final(rt) == *old(rt),
            r is Ok ==> {
                &&& final(self).slot == old(self).slot.resolved(generation, outcome)
                &&& final(self).history@ == old(self).history@.push(
                    Completion { generation, outcome },
                )
                &&& r == Ok::<bool, ReactiveError>(old(self).slot.awaits(generation))
                &&& old(self).slot.awaits(generation) ==> Runtime::write_step(*old(rt), *final(rt), cell, 0)
                &&& !old(self).slot.awaits(generation) ==> *final(rt) == *old(rt)
            },
    {
        if rt.read(cell).is_err() {
            return Err(ReactiveError::UseAfterDispose);
        }
        let current = self.resolve(generation, outcome);
        if current {
            let _ = rt.write(cell, 0);
        }
        Ok(current)
    }

    /// The observable slot (input, pending, value), read through `cell` so
    /// that the innermost evaluation in progress comes to depend on it.
    pub fn slot_tracked(&self, rt: &mut Runtime, cell: usize) -> (r: Result<ActionSlot, ReactiveError>)
        requires
            old(rt).wf(),
        ensures
            final(rt).wf(),
            keeps_disposed(*old(rt), *final(rt)),
            Runtime::track_step(*old(rt), *final(rt), cell),
            r is Ok <==> old(rt).live(cell as int),
            r is Ok ==> r == Ok::<ActionSlot, ReactiveError>(self.slot),
            r is Err ==> r == Err::<ActionSlot, ReactiveError>(ReactiveError::UseAfterDispose),
    {
        match rt.track(cell) {
            Ok(_) => Ok(self.slot),
            Err(e) => Err(e),
        }
    }
}

/// Two dispatches before either resolves: the action stays pending until the
/// second one resolves, and the committed value is the second one's outcome
/// in either order of resolution.
pub proof fn lemma_action_latest_dispatch_wins(
    s: ActionSlot,
    in1: i64,
    in2: i64,
    out1: Outcome,
    out2: Outcome,
)
    requires
        s.latest + 2 <= u64::MAX,
    ensures
        ({
            let s1 = s.dispatched(in1);
            let s2 = s1.dispatched(in2);
            let first_then_second = s2.resolved(s1.latest, out1);
            let second_then_first = s2.resolved(s2.latest, out2);
            &&& s2.pending
            &&& first_then_second.pending
            &&& first_then_second.value == s.value
            &&& !first_then_second.resolved(s2.latest, out2).pending
            &&& first_then_second.resolved(s2.latest, out2).value == Some(out2)
            &&& !second_then_first.pending
            &&& second_then_first.resolved(s1.latest, out1).value == Some(out2)
            &&& !second_then_first.resolved(s1.latest, out1).pending
        }),
{
}

} // verus!
