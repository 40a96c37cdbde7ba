//! The on-disk log: records, segments, the in-memory index, writing and recovery.

pub mod record;
pub mod segment;
pub mod index;
pub mod writer;
pub mod reader;
pub mod restart;
