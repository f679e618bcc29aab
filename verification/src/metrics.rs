//! How good predictions are.

pub mod streaming;

pub use streaming::{ConfusionMatrix, MetricsTracker, StreamingMetrics};
