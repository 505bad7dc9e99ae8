//! Verified core of a command-output logger: a line-oriented tee engine that
//! accumulates bytes per source and fans completed lines out to a mirror sink
//! and a shared log sink, together with the resolver that turns a command
//! line into a collision-free log file name.
//!
//! All I/O (reading the sources, writing the sinks, creating the log file)
//! is performed by the surrounding binary; this crate holds the decisions
//! and the byte-level bookkeeping, each function with a proved contract.

pub mod log;
pub mod tee;
pub mod util;
