//! A sequenced log store for real-time state synchronisation.
//!
//! Clients push values under string-named subjects; every push is ordered by
//! one global sequence counter, changes the subject's retained log as its
//! action says, and is broadcast to the subscribers. A dump returns what is
//! retained after a sequence number, so that a client can start from a
//! snapshot or catch up from a known watermark.
//!
//! - [`types`]: subjects, sequence numbers, actions and the message envelopes.
//! - [`store`]: the logs and the counter, with `apply` and `dump`.
//! - [`history`]: what holds of runs of pushes: the order of the sequence
//!   numbers, what each action leaves of a log, what a dump holds.
//! - [`registry`]: the live connections and who receives what.
//! - [`database`]: the orchestrator, which decides for every inbound message
//!   what changes, who is told and what is replicated.
//! - [`session`]: what follows from what the transport sees on a connection.
//! - [`storage`]: the keys under which a replica stores log entries.
//! - [`replica`]: the storage operations that mirror a mutation, and the
//!   rebuilding of a store from what was stored.
//! - [`mirror`]: what a replica holds, and that it keeps mirroring the store
//!   and rebuilds it.
//! - [`json`]: the JSON values that subjects carry.
//!
//! The library performs no input or output. All mutation goes through
//! `&mut` access to one `Database`, so whoever shares a database between
//! connections serialises the submissions, and with them the sequence numbers
//! and the order of the broadcasts.

pub mod database;
pub mod history;
pub mod json;
pub mod mirror;
pub mod registry;
pub mod replica;
pub mod session;
pub mod storage;
pub mod store;
pub mod types;
