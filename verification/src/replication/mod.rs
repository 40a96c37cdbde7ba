//! What is replicated, and how a replica keeps its raft log.

pub mod command;
pub mod messages;
pub mod storage;
