//! Micro-benchmark library: a consistency-checked workload generator for
//! set operations, a strategy-agnostic replay runner, an integer-nanosecond
//! confidence-interval reducer with a timed-repetition harness, and a
//! line-oriented decimal codec with two parsing strategies.

pub mod decimal;
pub mod lines;
pub mod rng;
pub mod stats;
pub mod strategy;
pub mod timing;
pub mod workload;
