//! A sharded, replicated write-ahead-log server: record and wire formats, the
//! per-stream state tables, log recovery, garbage collection, placement and the
//! decisions of the shard engine.

pub mod be;
pub mod buffer;
pub mod text;
pub mod clock;
pub mod keys;
pub mod order;
pub mod protocol;
pub mod channel;
pub mod replication;
pub mod shard;
pub mod config;
pub mod net;
pub mod numa;
pub mod cli;
pub mod bench;
pub mod wal;
