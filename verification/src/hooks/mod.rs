//! The three-phase hook pipeline: declarations, contexts and the executor.
pub mod phase;
pub mod executor;
