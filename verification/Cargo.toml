[package]
name = "filekv"
version = "0.1.0"
edition = "2021"
publish = false

[dependencies]
skiplist = "=0.6.0"
async-std = "=1.13.2"
raft = { version = "=0.7.0", default-features = false, features = ["protobuf-codec"] }
protobuf = "=2.28.0"
slog = "=2.8.2"
