//! A replicated, append-only message log whose replicas coordinate only
//! through a linearizable key-value store.
//!
//! Every request (send, poll, commit, list) is carried out by a
//! [`task::Task`]: a state machine that names the next store operation it
//! needs and moves on when handed the store's reply. The caller owns the
//! transport; the machine owns every decision.
//!
//! - [`keys`] and [`decimal`]: where in the store a topic keeps its state.
//! - [`store`]: the operations of the store, what they mean, and a store in
//!   memory.
//! - [`protocol`]: requests, responses, errors.
//! - [`machine`]: the rules, step by step, as mathematics.
//! - [`task`]: the executable machine that follows the rules.
//! - [`service`]: what each request comes to when it is served alone.
//! - [`cluster`]: any number of tasks racing against one store, and what
//!   holds of every interleaving.
//! - [`cache`]: what a replica remembers of its own sends.
//! - [`gossip`] and [`txn`]: the state of a gossip node, and the names of
//!   transaction operations, for the services that run beside the log.

pub mod cache;
pub mod cluster;
pub mod decimal;
pub mod gossip;
pub mod keys;
pub mod machine;
pub mod protocol;
pub mod service;
pub mod store;
pub mod task;
pub mod txn;
