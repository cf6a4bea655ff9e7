//! Build timings of continuous integration, commit by commit: read out
//! of the logs of the jobs, kept in a cache, published once, and put
//! together for a site.
//!
//! Durations are whole nanoseconds throughout, and maps by name keep
//! their keys in dictionary order, so that equal records are equal
//! entry by entry.

pub mod azure;
pub mod builder;
pub mod cache;
pub mod cpu;
pub mod decimal;
pub mod directory;
pub mod error;
pub mod gate;
pub mod git;
pub mod job_name;
pub mod layout;
pub mod name_map;
pub mod order;
pub mod record;
pub mod site;
pub mod text;
pub mod timing;

pub use record::{Commit, GitCommit, Job, Timing};
