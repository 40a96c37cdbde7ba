//! Memory nodes, processors, and which of them run what.

pub mod detection;
pub mod placement;
