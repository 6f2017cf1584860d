use vstd::prelude::*;

verus! {

/// Failures reported by the reactive store.
#[derive(Debug, Clone, Copy, PartialEq, Eq, Structural)]
pub enum ReactiveError {
    /// A cell (or memo) was read or written after it was disposed, or the
    /// handle never named one.
    UseAfterDispose,
    /// A keyed list snapshot held the same key twice.
    DuplicateKey,
    /// An effect kept re-triggering itself through its own writes and was
    /// suspended.
    ReactiveCycle,
}

} // verus!
