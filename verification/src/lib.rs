//! A discrete-event simulator for single-decree Paxos.
//!
//! A fixed population of clients (proposers) and servers (acceptors)
//! exchanges messages over a simulated network with per-link latencies,
//! driven in deterministic rounds by a seeded pseudo-random source.

use vstd::prelude::*;

pub mod history;
pub mod network;
pub mod paxos;
pub mod rng;
pub mod text;

verus! {

/// The exclusive upper bound on per-pair latency draws for the
/// randomized (asynchronous) network construction.
pub const MAX_LATENCY: usize = 10;

/// How many rounds a client waits for a majority before it falls back
/// to requesting a fresh ticket.
pub const WAIT_DURATION: usize = 50;

} // verus!
