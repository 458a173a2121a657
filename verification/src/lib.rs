//! A proxy for DogStatsD metric lines: the metric value object, the middleware
//! stages that reshape a stream of metrics, and the framing and buffering logic
//! at both ends of the pipeline.
//!
//! Every stage is described by relations over plain values, so that a chain of
//! stages can be reasoned about without knowing what stands behind it.

pub mod bytes;
pub mod clock;
pub mod config;
pub mod middleware;
pub mod testutils;
pub mod types;
