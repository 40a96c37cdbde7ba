//! What the server does with the bytes of its connections.

pub mod acceptor;
pub mod peer;
