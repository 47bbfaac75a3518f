//! A deterministic rollback/replay buffer for lockstep simulation.
//!
//! The buffer keeps a rolling window of per-tick inputs together with the
//! state just before the oldest retained input. It can recompute the state at
//! the frontier tick from that base, accept retroactive corrections of
//! historical inputs, resynchronise to an authoritative snapshot, and fold
//! old ticks away to bound memory.

pub mod laws;
pub mod replay;
pub mod transitions;
