//! The metadata store: ordered keys, bounded scans and atomic batches.
pub mod engine;
pub mod memory_engine;
pub mod range;
