//! A deterministic test harness core for a consensus-replicated key-value
//! store: it owns the simulated network topology, the lifecycle of simulated
//! server slots, the continuity of persisted state across crash/restart, and
//! the bookkeeping (RPC counts, operation counts, wall-clock budget) used to
//! judge test outcomes.

pub mod clock;
pub mod config;
pub mod errors;
pub mod ids;
pub mod network;
pub mod persist;
pub mod shuffling;
