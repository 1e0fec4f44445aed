//! Measurement and statistics engine for an interactive A/B command benchmark:
//! sorted per-candidate samples, rank quantiles, shared-range histograms,
//! relative standings and the trial schedule.
//!
//! Durations are whole nanoseconds throughout.

pub mod samples;
pub mod histogram;
pub mod bench;
pub mod command;
pub mod schedule;
