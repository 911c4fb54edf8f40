//! Core of a line-oriented task server.
//!
//! A client sends newline-delimited requests of the form `<task-kind>:<seed>`.
//! For every line that parses and names a known task kind, the server runs the
//! task-execution engine once and writes the single result byte back; every
//! other line is dropped silently.  Executions of the CPU-intensive task kind
//! are admission-controlled by a fixed-capacity permit pool so they cannot
//! starve the process.
//!
//! This crate holds the verified core: the wire-protocol parser, the task-kind
//! table, the admission-gate state with its capacity invariant, the acceptor's
//! bind/accept decisions, and the per-connection dispatch logic together with
//! the ordering guarantees of a whole connection.  The socket handling, the
//! async runtime, and the task-execution engine itself live outside this
//! crate and consume these decisions.

pub mod acceptor;
pub mod gate;
pub mod handler;
pub mod protocol;
pub mod task;

pub use handler::Server;
