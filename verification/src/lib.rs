//! A multi-tenant streaming graph engine.
//!
//! Connectivity is kept in layered disjoint-set forests: one shared tier that
//! every tenant sees and one sparse overlay per tenant. Committed state lives
//! in immutable sorted runs outside the heap, and everything applied since
//! lives in a memtable composed over them.

pub mod api;
pub mod config;
pub mod graph;
pub mod ha;
pub mod ingest;
pub mod storage;
pub mod text;
