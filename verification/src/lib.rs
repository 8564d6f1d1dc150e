//! Port scanning core: how a port range is split among a bounded number of
//! workers, how each probe's socket-level outcome becomes a port state, and
//! how the workers' partial results become one ordered report.
//!
//! The library performs no network operation itself. Callers run the probes
//! and hand their outcomes to the functions here, whose contracts state what
//! comes back for every input.

pub mod results;
pub mod scanners;
pub mod services;
pub mod strategy;
