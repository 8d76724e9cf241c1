//! A fixed-size worker pool for data-parallel "apply to every element" work.
//!
//! The library holds the pool's sizing rules (`config`) and the job protocol
//! (`job`): how participants claim disjoint indices of a shared buffer, how
//! each one signals exhaustion, and when the dispatching thread may take the
//! buffer back. Threads, channels and locks are the host program's part.

pub mod config;
pub mod job;

pub use config::{DEFAULT_FALLBACK_CPU_COUNT, PoolConfig, WaitAction, WaitStrategy};
pub use job::{Claim, Job, JobView};
