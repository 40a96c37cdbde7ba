[package]
name = "wal_server"
version = "0.1.0"
edition = "2021"
publish = false

[dependencies]
bytes = "1"
clap = { version = "4", features = ["derive"] }
crc32fast = "1"
crossbeam-channel = "0.5"
monoio = "0.2"
nix = { version = "0.29", features = ["sched", "process"] }
protobuf = "2"
raft = "0.7"
serde = { version = "1", features = ["derive"] }
slog = "2"
toml = "0.8"
tracing = "0.1"
tracing-subscriber = { version = "0.3", features = ["env-filter"] }
xxhash-rust = { version = "0.8", features = ["xxh3"] }
