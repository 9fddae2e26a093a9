//! Reconciliation-and-execution engine for an incrementally built,
//! partitioned dataset of derived leg records.
//!
//! The engine computes which (entity, month) partitions should exist,
//! which already do, derives the remaining work, schedules it under a
//! bounded-concurrency executor, and aggregates per-partition outputs
//! into yearly rollups with status metadata. All decisions and all byte
//! formats are verified here; the surrounding process performs the
//! storage and upstream-source I/O and hands plain values in and out.

pub mod num;
pub mod keys;
pub mod codec;
pub mod recon;
pub mod executor;
pub mod records;
pub mod etl;
pub mod aggregate;
