//! In-memory graph state: types, union-find, and the multi-tenant forest.

pub mod base;
pub mod compose;
pub mod dsu;
pub mod history;
pub mod links;
pub mod members;
pub mod memtable;
pub mod scoped;
pub mod sink;
pub mod snapshot;
pub mod sorting;
pub mod stream;
pub mod types;

pub use base::{BaseStats, RoutingBase};
pub use dsu::{Dsu, Merge};
pub use members::Members;
pub use scoped::{ForestStats, ScopedForest};
pub use sink::SnapshotSink;
pub use snapshot::ForestSnapshot;
pub use stream::{PartitionId, StreamId, StreamPosition};
pub use types::{EdgeEvent, NodeId, ScopeId, ScopeList, Visibility, GLOBAL_SCOPE};
