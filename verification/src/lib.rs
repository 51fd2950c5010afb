//! Supervisor for a single long-lived backend worker process.
//!
//! The library models the lifecycle of a "sidecar" worker: a launcher that
//! decides which interpreter to run and with which arguments, a readiness
//! reader that scans the worker's output for a sentinel line carrying its
//! port, and a supervisor holding at most one active worker handle at a
//! time, with a retire-before-install discipline that guarantees every
//! worker is handed to the shutdown protocol exactly once.
//!
//! Process spawning, stream reading and the lock that serializes the
//! supervisor's operations live in the (unverified) application layer; the
//! decisions they act on are all made here and carry contracts.

pub mod config;
pub mod errors;
pub mod launcher;
pub mod readiness;
pub mod supervisor;
pub mod workspace;
