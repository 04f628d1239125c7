//! Runtime core of a symbol-resolution worker: a liveness registry judged
//! against per-handle timeouts, a byte-budgeted symbol catalog with
//! single-flight fetch bookkeeping, and the fail-fast startup sequence that
//! provisions the worker's resources.

pub mod catalog;
pub mod health;
pub mod startup;
