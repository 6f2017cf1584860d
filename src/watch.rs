use vstd::prelude::*;

verus! {

/// Decides when a watch callback fires for a tracked expression, and with
/// which previous and new values. The expression itself is evaluated by the
/// caller inside an effect run; each evaluation is handed to `observe`.
#[derive(Debug, Clone, Copy)]
pub struct Watch {
    /// Fire on the first evaluation too, not only on later changes.
    pub immediate: bool,
    /// The value seen at the latest evaluation.
    pub last: Option<i64>,
}

/// What the callback receives for an evaluation that gave `value`, if it
/// fires at all: the previous value (none on the first one) and the new one.
pub open spec fn firing(w: Watch, value: i64) -> Option<(Option<i64>, i64)> {
    match w.last {
        None => if w.immediate {
            Some((None, value))
        } else {
            None
        },
        Some(p) => Some((Some(p), value)),
    }
}

impl Watch {
    pub fn new(immediate: bool) -> (w: Watch)
        ensures
            w.immediate == immediate,
            w.last is None,
    {
        Watch { immediate, last: None }
    }

    /// Records the evaluation `value` and says whether, and how, the
    /// callback fires.
    pub fn observe(&mut self, value: i64) -> (fire: Option<(Option<i64>, i64)>)
        ensures
            fire == firing(*old(self), value),
            final(self).last == Some(value),
            final(self).immediate == old(self).immediate,
    {
        let fire = match self.last {
            None => if self.immediate {
                Some((None, value))
            } else {
                None
            },
            Some(p) => Some((Some(p), value)),
        };
        self.last = Some(value);
        fire
    }
}

} // verus!
