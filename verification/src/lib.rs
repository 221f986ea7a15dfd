//! Verified engine for normalizing file and directory names to Unicode NFC.
//!
//! The library decides which names need renaming, builds race-safe old/new
//! paths, tracks rename outcomes, bounds concurrency with a permit pool, and
//! normalizes whole directory trees, all under verified contracts.

pub mod executor;
pub mod normalizer;
pub mod pool;
pub mod resolver;
pub mod tree;
pub mod unicode;
