//! Persistence: the on-disk formats, routing bases read from them, and the
//! catalog of what was committed.

pub mod base;
pub mod blocks;
pub mod catalog;
pub mod codec;
pub mod cold_start;
pub mod compact;
pub mod compacted;
pub mod conformance;
pub mod descent;
pub mod filter;
pub mod flush;
pub mod layered;
pub mod listing;
pub mod members;
pub mod names;
pub mod packing;
pub mod parquet_io;
pub mod payload;
pub mod puffin;
pub mod registry;
pub mod retention;
pub mod round_trip;
pub mod sorted;
pub mod stacking;
pub mod table;
pub mod tier;
pub mod wire;

pub use base::PuffinBase;
pub use catalog::{CommitOutcome, DataFileMeta, RunMeta, RunSet, SnapshotMeta};
pub use codec::WriteOptions;
pub use compact::{compact_layers, CompactionStats};
pub use filter::BlockedFilter;
pub use flush::{LocalLayers, DEFAULT_FOLD_AFTER_LINKS, DEFAULT_MAX_DELTA_LAYERS};
pub use layered::LayeredBase;
pub use members::MemberEncoding;
pub use registry::RegistryEncoding;
pub use retention::{Reclaimed, RetentionPolicy};
pub use tier::{pick_merge, DEFAULT_TIER_FANOUT};
