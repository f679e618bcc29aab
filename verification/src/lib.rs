//! Random forests that learn one sample at a time and forget one sample at a
//! time, exactly.

pub mod controller;
pub mod count;
pub mod dataset;
pub mod draw;
pub mod fixed;
pub mod forest;
pub mod fraction;
pub mod metrics;
pub mod node;
pub mod order;
pub mod random;
pub mod registry;
pub mod root;
pub mod sample;
pub mod scan;
pub mod split;
pub mod split_stats;
pub mod streaming;
pub mod table;
pub mod text;
pub mod tree;
pub mod wide;

pub use controller::batch::StreamingResult;
pub use controller::{FeatureProvider, SUDAConfig, SimpleFeatureStore, StreamingController};
pub use dataset::{ArrayDataset, AttributeType, Dataset};
pub use forest::DynFrsForest;
pub use metrics::{ConfusionMatrix, MetricsTracker, StreamingMetrics};
pub use node::{LazyTag, Node};
pub use registry::entry::TrackedSample;
pub use registry::report::SampleLifecycle;
pub use registry::{BudgetConfig, EvictionStats, InfluenceRegistry};
pub use sample::{ArraySample, Sample, VecSample};
pub use split::Split;
pub use split_stats::SplitStats;
pub use tree::DynFrsTree;
