//! Task analysis engine: filters time-tracked work entries down to one
//! project's complete records, partitions them into labeled buckets, and
//! reduces each bucket to exact aggregate statistics.
//!
//! Timestamps are plain minute counts since the Unix epoch; ratios are kept
//! as exact integer quotients, so every statistic here is computed and
//! specified over integers alone.

pub mod analyzer;
pub mod group;
pub mod laws;
pub mod model;
pub mod stats;

pub use analyzer::{analyze, AnalysisResult};
pub use group::KeyKind;
pub use model::{AnalysisResultTask, Project, Ratio, Task};
pub use stats::{Tasks, TasksAnalysisResult};
