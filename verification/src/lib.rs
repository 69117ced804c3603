//! Resolves configuration held in a hierarchical parameter store into a flat
//! set of environment bindings, and decides how a command is launched with
//! those bindings laid over the environment it inherits.
//!
//! The crate performs no I/O. A caller fetches the records from the store,
//! starts the child and waits for it; every decision in between is taken
//! here, and each of them is stated as a contract.

pub mod error;
pub mod launch;
pub mod object;
pub mod order;
pub mod overlay;
pub mod paths;
pub mod report;
pub mod resolve;
