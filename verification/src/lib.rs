//! A ratio-balancing activity planner.
//!
//! The library plans a sequence of personal activities ("tasks") so that the
//! observed share of time spent on each activity, over the accumulated
//! history of completed intervals, tracks a configured target ratio per
//! activity, while rest intervals (breaks and minibreaks) are inserted
//! whenever too much time has elapsed since the last one.
//!
//! Target ratios are fixed-point fractions, and all durations are whole
//! seconds, so every quantity the planner reasons about is an integer and
//! every contract is exact.

pub mod breaks;
pub mod cost;
pub mod credentials;
pub mod ratio;
pub mod schedule;
pub mod server;
pub mod storage;
pub mod task;
