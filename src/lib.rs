//! A small reactive store: observable cells, tracked effects and memoized
//! values, a keyed list reconciler, and generation-stamped async resources
//! and actions. Computations themselves run in the caller; the store keeps
//! the bookkeeping that decides what must run, what is stale, and what is
//! committed.
pub mod boundary;
pub mod error;
pub mod keyed;
pub mod resource;
pub mod runtime;
pub mod watch;
