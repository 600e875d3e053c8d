//! Latency-statistics aggregation for benchmark measurement.
//!
//! Raw timing samples (integer nanoseconds) are reduced to order statistics
//! (`min`, `max`, `p50`, `p99`, `count`), to an outlier-trimmed subset for
//! robust averaging, and to a coarse log2-scaled microsecond histogram.
//! Summaries from independent runs can be combined without access to the
//! original samples.

pub mod histogram;
pub mod sorting;
pub mod stats;
