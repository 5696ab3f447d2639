//! Firehose consumption and buffering.

pub mod batch;
pub mod buffer;
pub mod log;
pub mod pipeline;
pub mod source;

pub use batch::edge_schema;
pub use buffer::{BufferStats, EdgeBuffer, Segment};
pub use log::{ConsumerConfig, LogCursor, Record};
pub use pipeline::{Pipeline, PipelineStats};
pub use source::SimulatorConfig;
