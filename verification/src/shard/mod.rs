//! One shard: the streams that it holds, and what it does with requests.

pub mod stream_state;
pub mod batch;
pub mod router;
pub mod engine;
pub mod laws;
pub mod service;
