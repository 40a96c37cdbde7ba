//! The client protocol: messages, constants of the wire format, and the codec.

pub mod codec;
pub mod types;
pub mod wire;
