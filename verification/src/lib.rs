//! Block-chain synchronisation.
//!
//! The engine brings a local chain into agreement with the best chain that
//! its peers hold. It is a state machine: it takes the events of the network
//! one at a time and answers each with the actions to perform.
//!
//! - [`range_collection`]: sets of block numbers kept as disjoint ranges.
//! - [`types`], [`io`]: the values that come in and the actions that go out.
//! - [`search`]: the search for the common ancestor with a peer.
//! - [`schedule`]: what is obtained, what is asked for, what is still wanted.
//! - [`peer`]: the record of a connection.
//! - [`model`]: the state machine, as functions on its state.
//! - [`chain`]: the engine, which computes those functions.
//! - [`laws`]: what holds of every state that the engine can reach.

pub mod chain;
pub mod io;
pub mod laws;
pub mod model;
pub mod peer;
pub mod range_collection;
pub mod schedule;
pub mod search;
pub mod types;
